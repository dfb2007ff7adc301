//! Assembly text for stack operations.
use vstd::prelude::*;

verus! {

/// Text that grows line by line.
struct StringBuilder(String);

impl StringBuilder {
    fn empty() -> (builder: Self)
        ensures
            builder.0@ == Seq::<char>::empty(),
    {
        Self(String::new())
    }

    fn line(self, line: &str) -> (builder: Self)
        ensures
            builder.0@ == self.0@ + line@ + seq!['\n'],
    {
        proof {
            reveal_strlit("\n");
            assert("\n"@ =~= seq!['\n']);
        }
        Self(self.0.concat(line).concat("\n"))
    }

    fn finish(self) -> (text: String)
        ensures
            text@ == self.0@,
    {
        self.0
    }
}

/// The character that writes a digit.
spec fn digit(value: nat) -> char {
    if value == 0 {
        '0'
    } else if value == 1 {
        '1'
    } else if value == 2 {
        '2'
    } else if value == 3 {
        '3'
    } else if value == 4 {
        '4'
    } else if value == 5 {
        '5'
    } else if value == 6 {
        '6'
    } else if value == 7 {
        '7'
    } else if value == 8 {
        '8'
    } else {
        '9'
    }
}

/// A number written in base ten, without leading zeros.
spec fn digits(value: nat) -> Seq<char>
    decreases value,
{
    if value < 10 {
        seq![digit(value)]
    } else {
        digits(value / 10).push(digit(value % 10))
    }
}

/// The text of one digit.
fn digit_text(value: u64) -> (text: &'static str)
    requires
        value < 10,
    ensures
        text@ == seq![digit(value as nat)],
{
    proof {
        reveal_strlit("0");
        reveal_strlit("1");
        reveal_strlit("2");
        reveal_strlit("3");
        reveal_strlit("4");
        reveal_strlit("5");
        reveal_strlit("6");
        reveal_strlit("7");
        reveal_strlit("8");
        reveal_strlit("9");
    }
    let text = if value == 0 {
        "0"
    } else if value == 1 {
        "1"
    } else if value == 2 {
        "2"
    } else if value == 3 {
        "3"
    } else if value == 4 {
        "4"
    } else if value == 5 {
        "5"
    } else if value == 6 {
        "6"
    } else if value == 7 {
        "7"
    } else if value == 8 {
        "8"
    } else {
        "9"
    };
    assert(text@ =~= seq![digit(value as nat)]);
    text
}

/// A number written in base ten.
fn number_text(value: u64) -> (text: String)
    ensures
        text@ == digits(value as nat),
    decreases value,
{
    if value < 10 {
        String::from_str(digit_text(value))
    } else {
        let text = number_text(value / 10).concat(digit_text(value % 10));
        assert(text@ =~= digits(value as nat / 10).push(digit(value as nat % 10)));
        text
    }
}

/// A stack operation.
enum Op {
    BinaryAdd,
    BinarySub,
    Load(u64),
}

impl Op {
    /// The assembly text of the operation: its lines, each with a line feed
    /// behind it.
    spec fn text(self) -> Seq<char> {
        match self {
            Op::BinaryAdd => "pop rdx"@ + seq!['\n'] + "pop rax"@ + seq!['\n'] + "add rax, rdx"@
                + seq!['\n'],
            Op::BinarySub => "pop rdx"@ + seq!['\n'] + "pop rax"@ + seq!['\n'] + "sub rax, rdx"@
                + seq!['\n'],
            Op::Load(value) => "push "@ + digits(value as nat) + seq!['\n'],
        }
    }

    fn assembly(&self) -> (text: String)
        ensures
            text@ == self.text(),
    {
        match self {
            Op::BinaryAdd => {
                let text = StringBuilder::empty().line("pop rdx").line("pop rax").line(
                    "add rax, rdx",
                ).finish();
                assert(text@ =~= self.text());
                text
            },
            Op::BinarySub => {
                let text = StringBuilder::empty().line("pop rdx").line("pop rax").line(
                    "sub rax, rdx",
                ).finish();
                assert(text@ =~= self.text());
                text
            },
            Op::Load(value) => {
                let number = number_text(*value);
                let text = String::from_str("push ").concat(number.as_str()).concat("\n");
                proof {
                    reveal_strlit("\n");
                    assert(text@ =~= self.text());
                }
                text
            },
        }
    }
}

/// The assembly text of a sample: load 34, load 35, add.
pub fn codegen() -> (text: String)
    ensures
        text@ == "push 34\npush 35\npop rdx\npop rax\nadd rax, rdx\n"@,
{
    let first = Op::Load(34).assembly();
    let second = Op::Load(35).assembly();
    let third = Op::BinaryAdd.assembly();
    let text = first.concat(second.as_str()).concat(third.as_str());
    proof {
        reveal_strlit("push 34\npush 35\npop rdx\npop rax\nadd rax, rdx\n");
        reveal_strlit("push ");
        reveal_strlit("pop rdx");
        reveal_strlit("pop rax");
        reveal_strlit("add rax, rdx");
        reveal_with_fuel(digits, 3);
        assert(digits(34) =~= seq!['3', '4']);
        assert(digits(35) =~= seq!['3', '5']);
        assert(text@ =~= "push 34\npush 35\npop rdx\npop rax\nadd rax, rdx\n"@);
    }
    text
}

} // verus!
