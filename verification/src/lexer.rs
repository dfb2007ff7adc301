//! The lexer: from characters to lexemes, and from lexemes to tokens.
//!
//! A lexeme is a parenthesis, a string in double quotes, or a symbol, which
//! runs up to the next parenthesis or white space. White space between
//! lexemes is skipped, and so is a comment, which runs from a `;` up to the
//! end of its line. A symbol may run up to the end of the input. A string
//! without its closing quote and a comment without the end of its line are
//! no lexemes: scanning stops in front of them.
use vstd::prelude::*;

verus! {

/// Whether a character has the Unicode property `White_Space`.
pub open spec fn is_whitespace(c: char) -> bool {
    let code = c as u32;
    ||| 0x09 <= code <= 0x0D
    ||| code == 0x20
    ||| code == 0x85
    ||| code == 0xA0
    ||| code == 0x1680
    ||| 0x2000 <= code <= 0x200A
    ||| code == 0x2028
    ||| code == 0x2029
    ||| code == 0x202F
    ||| code == 0x205F
    ||| code == 0x3000
}

/// Whether a character has the Unicode property `White_Space`.
pub fn whitespace(c: char) -> (yes: bool)
    ensures
        yes == is_whitespace(c),
{
    let code = c as u32;
    (0x09 <= code && code <= 0x0D) || code == 0x20 || code == 0x85 || code == 0xA0 || code
        == 0x1680 || (0x2000 <= code && code <= 0x200A) || code == 0x2028 || code == 0x2029 || code
        == 0x202F || code == 0x205F || code == 0x3000
}

/// What ends a run of characters.
#[derive(Clone, Copy)]
pub enum Stop {
    /// A parenthesis or white space: the end of a symbol.
    Delimiter,
    /// A double quote: the end of a string.
    Quote,
    /// A line feed: the end of a comment.
    Newline,
}

impl Stop {
    /// Whether the character ends the run.
    pub open spec fn ends(self, c: char) -> bool {
        match self {
            Stop::Delimiter => c == '(' || c == ')' || is_whitespace(c),
            Stop::Quote => c == '"',
            Stop::Newline => c == '\n',
        }
    }

    /// Whether the character ends the run.
    fn test(self, c: char) -> (yes: bool)
        ensures
            yes == self.ends(c),
    {
        match self {
            Stop::Delimiter => c == '(' || c == ')' || whitespace(c),
            Stop::Quote => c == '"',
            Stop::Newline => c == '\n',
        }
    }
}

/// The first position from `from` on whose character ends the run.
pub open spec fn find(text: Seq<char>, from: int, stop: Stop) -> Option<int>
    decreases text.len() - from,
{
    if from < 0 || from >= text.len() {
        None
    } else if stop.ends(text[from]) {
        Some(from)
    } else {
        find(text, from + 1, stop)
    }
}

/// What scanning finds at the front of a text: how many characters of white
/// space and comments it skips, and how long the lexeme behind them is, if
/// there is one.
pub struct Step {
    pub skipped: nat,
    pub lexeme: Option<nat>,
}

impl Step {
    /// The same step seen from `by` characters earlier.
    pub open spec fn after(self, by: nat) -> Step {
        Step { skipped: self.skipped + by, lexeme: self.lexeme }
    }
}

/// What scanning finds at the front of `text`.
pub open spec fn scan(text: Seq<char>) -> Step
    decreases text.len(),
{
    if text.len() == 0 {
        Step { skipped: 0, lexeme: None }
    } else if text[0] == ';' {
        match find(text, 1, Stop::Newline) {
            Some(end) => if 1 <= end < text.len() {
                scan(text.skip(end)).after(end as nat)
            } else {
                Step { skipped: 0, lexeme: None }
            },
            None => Step { skipped: 0, lexeme: None },
        }
    } else if text[0] == '(' || text[0] == ')' {
        Step { skipped: 0, lexeme: Some(1) }
    } else if text[0] == '"' {
        match find(text, 1, Stop::Quote) {
            Some(end) => Step { skipped: 0, lexeme: Some((end + 1) as nat) },
            None => Step { skipped: 0, lexeme: None },
        }
    } else if !is_whitespace(text[0]) {
        match find(text, 1, Stop::Delimiter) {
            Some(end) => Step { skipped: 0, lexeme: Some(end as nat) },
            None => Step { skipped: 0, lexeme: Some(text.len()) },
        }
    } else {
        scan(text.skip(1)).after(1)
    }
}

/// What `find` finds is a position at or behind `from` whose character ends
/// the run, and no character between the two does.
pub proof fn lemma_find(text: Seq<char>, from: int, stop: Stop)
    requires
        0 <= from,
    ensures
        match find(text, from, stop) {
            Some(end) => {
                &&& from <= end < text.len()
                &&& stop.ends(text[end])
                &&& forall|i: int| from <= i < end ==> !stop.ends(text[i])
            },
            None => forall|i: int| from <= i < text.len() ==> !stop.ends(text[i]),
        },
    decreases text.len() - from,
{
    if from < text.len() && !stop.ends(text[from]) {
        lemma_find(text, from + 1, stop);
    }
}

/// A step stays inside its text, and a lexeme is not empty.
pub proof fn lemma_scan_bounds(text: Seq<char>)
    ensures
        scan(text).skipped <= text.len(),
        scan(text).lexeme matches Some(len) ==> len >= 1 && scan(text).skipped + len
            <= text.len(),
    decreases text.len(),
{
    if text.len() == 0 {
    } else if text[0] == ';' {
        lemma_find(text, 1, Stop::Newline);
        match find(text, 1, Stop::Newline) {
            Some(end) => {
                lemma_scan_bounds(text.skip(end));
            },
            None => {},
        }
    } else if text[0] == '(' || text[0] == ')' {
    } else if text[0] == '"' {
        lemma_find(text, 1, Stop::Quote);
    } else if !is_whitespace(text[0]) {
        lemma_find(text, 1, Stop::Delimiter);
    } else {
        lemma_scan_bounds(text.skip(1));
    }
}

/// A piece of the source, and where it stands.
#[derive(Debug, PartialEq)]
pub struct Lexeme<'a> {
    content: &'a str,
    index: usize,
}

/// A [`Lexeme`] as plain values.
pub struct LexemeView {
    pub content: Seq<char>,
    pub index: nat,
}

impl<'a> View for Lexeme<'a> {
    type V = LexemeView;

    closed spec fn view(&self) -> LexemeView {
        LexemeView { content: self.content@, index: self.index as nat }
    }
}

/// Where a token stands in the source: the position of its first character
/// and the number of its characters.
#[derive(Debug, Clone, Copy, PartialEq, Eq, Structural)]
pub struct Positioning {
    pub index: usize,
    pub length: usize,
}

impl<'a> Lexeme<'a> {
    fn new(content: &'a str, index: usize) -> (lexeme: Self)
        ensures
            lexeme@ == (LexemeView { content: content@, index: index as nat }),
    {
        Self { content, index }
    }

    /// The characters of the lexeme.
    pub fn content(&self) -> (content: &'a str)
        ensures
            content@ == self@.content,
    {
        self.content
    }

    /// Where the lexeme stands.
    pub fn positioning(&self) -> (pos: Positioning)
        ensures
            pos.index == self@.index,
            pos.length == self@.content.len(),
    {
        Positioning { index: self.index, length: self.content.unicode_len() }
    }
}

/// The lexemes of `text`, whose first character stands at `index`, from the
/// first to the last that scanning reaches.
pub open spec fn lexemes(text: Seq<char>, index: nat) -> Seq<LexemeView>
    decreases text.len(),
{
    let step = scan(text);
    match step.lexeme {
        Some(len) => if len >= 1 && step.skipped + len <= text.len() {
            seq![
                LexemeView {
                    content: text.subrange(step.skipped as int, (step.skipped + len) as int),
                    index: index + step.skipped,
                },
            ] + lexemes(text.skip((step.skipped + len) as int), index + step.skipped + len)
        } else {
            Seq::empty()
        },
        None => Seq::empty(),
    }
}

/// A scanner over a source text. Positions count characters, and taking a
/// lexeme costs time in proportion to the text that is left.
pub struct Scanner<'a> {
    src: &'a str,
    index: usize,
    len: usize,
}

/// A [`Scanner`] as plain values: the text that is left and the position of
/// its first character in the source.
pub struct ScannerView {
    pub rest: Seq<char>,
    pub index: nat,
}

impl ScannerView {
    /// That every position in the text that is left is a machine integer.
    /// It holds of every scanner.
    pub open spec fn fits(self) -> bool {
        self.index + self.rest.len() <= usize::MAX
    }
}

impl<'a> View for Scanner<'a> {
    type V = ScannerView;

    closed spec fn view(&self) -> ScannerView {
        ScannerView { rest: self.src@, index: self.index as nat }
    }
}

impl<'a> Scanner<'a> {
    #[verifier::type_invariant]
    spec fn well_formed(self) -> bool {
        &&& self.len == self.src@.len()
        &&& self.index + self.len <= usize::MAX
    }

    /// A scanner at the start of `src`.
    pub fn new(src: &'a str) -> (scanner: Self)
        ensures
            scanner@ == (ScannerView { rest: src@, index: 0 }),
            scanner@.fits(),
    {
        Self { src, index: 0, len: src.unicode_len() }
    }

    /// The first `n` characters of what is left, which the scanner then is
    /// past; nothing where fewer are left.
    fn take(&mut self, n: usize) -> (head: Option<&'a str>)
        ensures
            match head {
                Some(head) => {
                    &&& n <= old(self)@.rest.len()
                    &&& head@ == old(self)@.rest.subrange(0, n as int)
                    &&& final(self)@ == (ScannerView {
                        rest: old(self)@.rest.skip(n as int),
                        index: (old(self)@.index + n) as nat,
                    })
                },
                None => n > old(self)@.rest.len() && final(self)@ == old(self)@,
            },
    {
        proof {
            use_type_invariant(&*self);
        }
        if n > self.len {
            return None;
        }
        let head = self.src.substring_char(0, n);
        let rest = self.src.substring_char(n, self.len);
        *self = Scanner { src: rest, index: self.index + n, len: self.len - n };
        Some(head)
    }

    /// The characters up to the first one behind the first that ends the
    /// run, with that one if `inclusive`; nothing where none ends it.
    fn take_until(&mut self, stop: Stop, inclusive: bool) -> (head: Option<&'a str>)
        ensures
            match find(old(self)@.rest, 1, stop) {
                Some(end) => {
                    let n = if inclusive {
                        end + 1
                    } else {
                        end
                    };
                    &&& head matches Some(head)
                    &&& head@ == old(self)@.rest.subrange(0, n)
                    &&& final(self)@ == (ScannerView {
                        rest: old(self)@.rest.skip(n),
                        index: (old(self)@.index + n) as nat,
                    })
                },
                None => head is None && final(self)@ == old(self)@,
            },
    {
        proof {
            use_type_invariant(&*self);
        }
        let mut i: usize = 1;
        while i < self.len
            invariant
                1 <= i,
                self.len == self.src@.len(),
                *self == *old(self),
                find(self@.rest, 1, stop) == find(self@.rest, i as int, stop),
            decreases self.len - i,
        {
            if stop.test(self.src.get_char(i)) {
                return self.take(
                    if inclusive {
                        i + 1
                    } else {
                        i
                    },
                );
            }
            i += 1;
        }
        None
    }

    /// The symbol at the front of what is left: the characters up to the
    /// first parenthesis or white space behind the first character, or all
    /// of them where none follows.
    fn take_symbol(&mut self) -> (head: Option<&'a str>)
        requires
            old(self)@.rest.len() >= 1,
        ensures
            ({
                let n = match find(old(self)@.rest, 1, Stop::Delimiter) {
                    Some(end) => end,
                    None => old(self)@.rest.len() as int,
                };
                &&& head matches Some(head)
                &&& head@ == old(self)@.rest.subrange(0, n)
                &&& final(self)@ == (ScannerView {
                    rest: old(self)@.rest.skip(n),
                    index: (old(self)@.index + n) as nat,
                })
            }),
    {
        proof {
            use_type_invariant(&*self);
        }
        match self.take_until(Stop::Delimiter, false) {
            Some(head) => Some(head),
            None => {
                proof {
                    use_type_invariant(&*self);
                }
                let all = self.len;
                self.take(all)
            },
        }
    }

    fn take_one(&mut self) -> (head: Option<&'a str>)
        ensures
            match head {
                Some(head) => {
                    &&& 1 <= old(self)@.rest.len()
                    &&& head@ == old(self)@.rest.subrange(0, 1)
                    &&& final(self)@ == (ScannerView {
                        rest: old(self)@.rest.skip(1),
                        index: old(self)@.index + 1,
                    })
                },
                None => old(self)@.rest.len() == 0 && final(self)@ == old(self)@,
            },
    {
        self.take(1)
    }

    /// The next lexeme, if scanning reaches one. The scanner then is past
    /// the white space and the comments that it skipped, and past the
    /// lexeme.
    pub fn next(&mut self) -> (lexeme: Option<Lexeme<'a>>)
        ensures
            old(self)@.fits(),
            final(self)@.fits(),
            ({
                let step = scan(old(self)@.rest);
                match step.lexeme {
                    Some(len) => {
                        &&& lexeme matches Some(found)
                        &&& found@ == (LexemeView {
                            content: old(self)@.rest.subrange(
                                step.skipped as int,
                                (step.skipped + len) as int,
                            ),
                            index: old(self)@.index + step.skipped,
                        })
                        &&& final(self)@ == (ScannerView {
                            rest: old(self)@.rest.skip((step.skipped + len) as int),
                            index: old(self)@.index + step.skipped + len,
                        })
                    },
                    None => {
                        &&& lexeme is None
                        &&& final(self)@ == (ScannerView {
                            rest: old(self)@.rest.skip(step.skipped as int),
                            index: old(self)@.index + step.skipped,
                        })
                    },
                }
            }),
    {
        let ghost start = self@;
        let ghost mut skipped: nat = 0;
        assert(start.rest.skip(0) =~= start.rest);
        proof {
            use_type_invariant(&*self);
        }
        loop
            invariant
                start == old(self)@,
                start.fits(),
                skipped <= start.rest.len(),
                self@ == (ScannerView {
                    rest: start.rest.skip(skipped as int),
                    index: start.index + skipped,
                }),
                scan(start.rest) == scan(self@.rest).after(skipped),
            decreases self@.rest.len(),
        {
            proof {
                use_type_invariant(&*self);
                lemma_scan_bounds(start.rest);
            }
            if self.len == 0 {
                return None;
            }
            let ghost here = self@;
            let index = self.index;
            let ch = self.src.get_char(0);
            proof {
                lemma_find(here.rest, 1, Stop::Newline);
                lemma_find(here.rest, 1, Stop::Quote);
                lemma_find(here.rest, 1, Stop::Delimiter);
            }
            let taken = if ch == ';' {
                match self.take_until(Stop::Newline, false) {
                    Some(_) => {
                        proof {
                            let end = find(here.rest, 1, Stop::Newline)->0;
                            assert(start.rest.skip(skipped as int).skip(end) =~= start.rest.skip(
                                skipped + end,
                            ));
                            skipped = (skipped + end) as nat;
                        }
                        continue ;
                    },
                    None => {
                        return None;
                    },
                }
            } else if ch == '(' || ch == ')' {
                self.take_one()
            } else if ch == '"' {
                self.take_until(Stop::Quote, true)
            } else if !whitespace(ch) {
                self.take_symbol()
            } else {
                match self.take_one() {
                    Some(_) => {
                        proof {
                            assert(start.rest.skip(skipped as int).skip(1) =~= start.rest.skip(
                                (skipped + 1) as int,
                            ));
                            skipped = skipped + 1;
                        }
                        continue ;
                    },
                    None => {
                        return None;
                    },
                }
            };
            return match taken {
                Some(content) => {
                    proof {
                        let len = scan(here.rest).lexeme->0;
                        assert(here.rest.subrange(0, len as int) =~= start.rest.subrange(
                            skipped as int,
                            (skipped + len) as int,
                        ));
                        assert(here.rest.skip(len as int) =~= start.rest.skip(
                            (skipped + len) as int,
                        ));
                    }
                    Some(Lexeme::new(content, index))
                },
                None => None,
            };
        }
    }
}


/// What a token is. A number and a name hold their characters. A string
/// holds what stands between its quotes; the empty string `""` alone holds
/// its two quotes.
#[derive(Debug, Clone, Copy, PartialEq)]
pub enum TokenKind<'a> {
    Open,
    Close,
    NumberLiteral(&'a str),
    StringLiteral(&'a str),
    Identifier(&'a str),
}

/// A [`TokenKind`] as plain values.
pub enum KindView {
    Open,
    Close,
    NumberLiteral(Seq<char>),
    StringLiteral(Seq<char>),
    Identifier(Seq<char>),
}

impl<'a> View for TokenKind<'a> {
    type V = KindView;

    open spec fn view(&self) -> KindView {
        match self {
            TokenKind::Open => KindView::Open,
            TokenKind::Close => KindView::Close,
            TokenKind::NumberLiteral(digits) => KindView::NumberLiteral(digits@),
            TokenKind::StringLiteral(text) => KindView::StringLiteral(text@),
            TokenKind::Identifier(name) => KindView::Identifier(name@),
        }
    }
}

/// A lexeme with its kind.
#[derive(Debug, Clone, Copy)]
pub struct Token<'a> {
    kind: TokenKind<'a>,
    pos: Positioning,
}

/// A [`Token`] as plain values.
pub struct TokenView {
    pub kind: KindView,
    pub pos: Positioning,
}

impl<'a> View for Token<'a> {
    type V = TokenView;

    closed spec fn view(&self) -> TokenView {
        TokenView { kind: self.kind@, pos: self.pos }
    }
}

/// A text without its first and its last character, if it has more than two
/// characters; else the text.
pub open spec fn shrink(text: Seq<char>) -> Seq<char> {
    if text.len() <= 2 {
        text
    } else {
        text.subrange(1, text.len() - 1)
    }
}

/// Whether a character is one of the digits `0` to `9`.
pub open spec fn is_digit(c: char) -> bool {
    '0' <= c <= '9'
}

/// Whether every character is a digit.
pub open spec fn all_digits(text: Seq<char>) -> bool {
    forall|i: int| 0 <= i < text.len() ==> is_digit(#[trigger] text[i])
}

/// Whether a text begins and ends with a double quote.
pub open spec fn quoted(text: Seq<char>) -> bool {
    text.len() >= 1 && text.first() == '"' && text.last() == '"'
}

/// The kind of the token that a lexeme is: a parenthesis, a number if it
/// consists of digits, a string if it stands in double quotes, and a name
/// otherwise.
pub open spec fn classify(content: Seq<char>) -> KindView {
    if content == seq!['('] {
        KindView::Open
    } else if content == seq![')'] {
        KindView::Close
    } else if all_digits(content) {
        KindView::NumberLiteral(content)
    } else if quoted(content) {
        KindView::StringLiteral(shrink(content))
    } else {
        KindView::Identifier(content)
    }
}

/// The token that a lexeme is.
pub open spec fn token_of(lexeme: LexemeView) -> TokenView {
    TokenView {
        kind: classify(lexeme.content),
        pos: Positioning { index: lexeme.index as usize, length: lexeme.content.len() as usize },
    }
}

fn shrink_str<'a>(string: &'a str) -> (inner: &'a str)
    ensures
        inner@ == shrink(string@),
{
    let len = string.unicode_len();
    if len <= 2 {
        return string;
    }
    string.substring_char(1, len - 1)
}

fn is_number_literal(string: &str) -> (yes: bool)
    ensures
        yes == all_digits(string@),
{
    let len = string.unicode_len();
    let mut i: usize = 0;
    while i < len
        invariant
            i <= len,
            len == string@.len(),
            forall|j: int| 0 <= j < i ==> is_digit(#[trigger] string@[j]),
        decreases len - i,
    {
        let c = string.get_char(i);
        if !('0' <= c && c <= '9') {
            return false;
        }
        i += 1;
    }
    true
}

fn is_string_literal(string: &str) -> (yes: bool)
    ensures
        yes == quoted(string@),
{
    let len = string.unicode_len();
    len >= 1 && string.get_char(0) == '"' && string.get_char(len - 1) == '"'
}

/// Whether a text is the one character `c`.
fn is_char(string: &str, c: char) -> (yes: bool)
    ensures
        yes == (string@ == seq![c]),
{
    let yes = string.unicode_len() == 1 && string.get_char(0) == c;
    proof {
        if yes {
            assert(string@ =~= seq![c]);
        }
    }
    yes
}

impl<'a> Token<'a> {
    /// What the token is.
    pub fn kind(&self) -> (kind: TokenKind<'a>)
        ensures
            kind@ == self@.kind,
    {
        self.kind
    }

    /// Where the token stands.
    pub fn position(&self) -> (pos: Positioning)
        ensures
            pos == self@.pos,
    {
        self.pos
    }

    fn open(pos: Positioning) -> (token: Self)
        ensures
            token@ == (TokenView { kind: KindView::Open, pos }),
    {
        Self { kind: TokenKind::Open, pos }
    }

    fn close(pos: Positioning) -> (token: Self)
        ensures
            token@ == (TokenView { kind: KindView::Close, pos }),
    {
        Self { kind: TokenKind::Close, pos }
    }

    fn number_literal(content: &'a str, pos: Positioning) -> (token: Self)
        ensures
            token@ == (TokenView { kind: KindView::NumberLiteral(content@), pos }),
    {
        Self { kind: TokenKind::NumberLiteral(content), pos }
    }

    fn string_literal(content: &'a str, pos: Positioning) -> (token: Self)
        ensures
            token@ == (TokenView { kind: KindView::StringLiteral(shrink(content@)), pos }),
    {
        Self { kind: TokenKind::StringLiteral(shrink_str(content)), pos }
    }

    fn identifier(content: &'a str, pos: Positioning) -> (token: Self)
        ensures
            token@ == (TokenView { kind: KindView::Identifier(content@), pos }),
    {
        Self { kind: TokenKind::Identifier(content), pos }
    }

    /// The token that a lexeme is.
    fn of(lexeme: &Lexeme<'a>) -> (token: Self)
        ensures
            token@ == token_of(lexeme@),
    {
        let content = lexeme.content();
        let pos = lexeme.positioning();
        if is_char(content, '(') {
            Token::open(pos)
        } else if is_char(content, ')') {
            Token::close(pos)
        } else if is_number_literal(content) {
            Token::number_literal(content, pos)
        } else if is_string_literal(content) {
            Token::string_literal(content, pos)
        } else {
            Token::identifier(content, pos)
        }
    }
}

/// The tokens of `text`, whose first character stands at `index`.
pub open spec fn tokens(text: Seq<char>, index: nat) -> Seq<TokenView> {
    lexemes(text, index).map_values(|lexeme: LexemeView| token_of(lexeme))
}

/// Turns the lexemes of a scanner into tokens.
pub struct Evaluator<'a> {
    lexemes: Scanner<'a>,
}

impl<'a> View for Evaluator<'a> {
    type V = ScannerView;

    closed spec fn view(&self) -> ScannerView {
        self.lexemes@
    }
}

impl<'a> Scanner<'a> {
    /// The tokens of what the scanner has not scanned yet.
    pub fn evaluate(self) -> (evaluator: Evaluator<'a>)
        ensures
            evaluator@ == self@,
            self@.fits(),
    {
        proof {
            use_type_invariant(&self);
        }
        Evaluator { lexemes: self }
    }

    /// All the lexemes that are left, from the first to the last that
    /// scanning reaches.
    pub fn collect(self) -> (all: Vec<Lexeme<'a>>)
        ensures
            self@.fits(),
            all@.len() == lexemes(self@.rest, self@.index).len(),
            forall|i: int|
                0 <= i < all@.len() ==> (#[trigger] all@[i])@ == lexemes(
                    self@.rest,
                    self@.index,
                )[i],
    {
        proof {
            use_type_invariant(&self);
        }
        let mut scanner = self;
        let mut all: Vec<Lexeme<'a>> = Vec::new();
        let ghost expected = lexemes(self@.rest, self@.index);
        loop
            invariant
                self@.fits(),
                expected == lexemes(self@.rest, self@.index),
                all@.len() <= expected.len(),
                forall|i: int| 0 <= i < all@.len() ==> (#[trigger] all@[i])@ == expected[i],
                expected.skip(all@.len() as int) == lexemes(scanner@.rest, scanner@.index),
            decreases scanner@.rest.len(),
        {
            let ghost before = scanner@;
            let ghost found = all@.len() as int;
            proof {
                lemma_scan_bounds(before.rest);
            }
            match scanner.next() {
                Some(lexeme) => {
                    proof {
                        let rest = lexemes(scanner@.rest, scanner@.index);
                        assert(expected.skip(found) == seq![lexeme@] + rest);
                        assert(expected.skip(found)[0] == lexeme@);
                        assert(expected.skip(found).skip(1) =~= expected.skip(found + 1));
                        assert((seq![lexeme@] + rest).skip(1) =~= rest);
                    }
                    all.push(lexeme);
                },
                None => {
                    assert(expected.skip(found).len() == 0);
                    return all;
                },
            }
        }
    }
}

impl<'a> Evaluator<'a> {
    /// The next token, if scanning reaches one.
    pub fn next(&mut self) -> (token: Option<Token<'a>>)
        ensures
            old(self)@.fits(),
            final(self)@.fits(),
            ({
                let step = scan(old(self)@.rest);
                match step.lexeme {
                    Some(len) => {
                        &&& token matches Some(found)
                        &&& found@ == token_of(
                            LexemeView {
                                content: old(self)@.rest.subrange(
                                    step.skipped as int,
                                    (step.skipped + len) as int,
                                ),
                                index: old(self)@.index + step.skipped,
                            },
                        )
                        &&& final(self)@ == (ScannerView {
                            rest: old(self)@.rest.skip((step.skipped + len) as int),
                            index: old(self)@.index + step.skipped + len,
                        })
                    },
                    None => {
                        &&& token is None
                        &&& final(self)@ == (ScannerView {
                            rest: old(self)@.rest.skip(step.skipped as int),
                            index: old(self)@.index + step.skipped,
                        })
                    },
                }
            }),
    {
        match self.lexemes.next() {
            Some(lexeme) => Some(Token::of(&lexeme)),
            None => None,
        }
    }

    /// All the tokens that are left.
    pub fn collect(self) -> (all: Vec<Token<'a>>)
        ensures
            self@.fits(),
            all@.len() == tokens(self@.rest, self@.index).len(),
            forall|i: int|
                0 <= i < all@.len() ==> (#[trigger] all@[i])@ == tokens(self@.rest, self@.index)[i],
    {
        let found = self.lexemes.collect();
        let mut all: Vec<Token<'a>> = Vec::with_capacity(found.len());
        let mut i: usize = 0;
        while i < found.len()
            invariant
                i <= found.len(),
                all@.len() == i,
                found@.len() == lexemes(self@.rest, self@.index).len(),
                forall|j: int|
                    0 <= j < found@.len() ==> (#[trigger] found@[j])@ == lexemes(
                        self@.rest,
                        self@.index,
                    )[j],
                forall|j: int|
                    0 <= j < i ==> (#[trigger] all@[j])@ == tokens(self@.rest, self@.index)[j],
            decreases found.len() - i,
        {
            all.push(Token::of(&found[i]));
            i += 1;
        }
        all
    }
}

/// A text with every occurrence of `from` replaced by `to`. The occurrences
/// are found from the left and do not overlap.
pub open spec fn replaced(text: Seq<char>, from: Seq<char>, to: Seq<char>) -> Seq<char>
    decreases text.len(),
{
    if from.len() == 0 || text.len() < from.len() {
        text
    } else if text.take(from.len() as int) == from {
        to + replaced(text.skip(from.len() as int), from, to)
    } else {
        seq![text[0]] + replaced(text.skip(1), from, to)
    }
}

/// `str::replace` of the standard library, for a pattern that is not empty:
/// the result is the text with each occurrence of the pattern, found from
/// the left and without overlap, replaced by the replacement.
#[verifier::external_body]
fn replace(text: &str, from: &str, to: &str) -> (result: String)
    requires
        from@.len() > 0,
    ensures
        result@ == replaced(text@, from@, to@),
{
    text.replace(from, to)
}

/// The source with every line ending of two characters, carriage return and
/// line feed, turned into a line feed.
pub fn preprocess(src: &str) -> (code: String)
    ensures
        code@ == replaced(src@, seq!['\r', '\n'], seq!['\n']),
{
    proof {
        reveal_strlit("\r\n");
        reveal_strlit("\n");
        assert("\r\n"@ =~= seq!['\r', '\n']);
        assert("\n"@ =~= seq!['\n']);
    }
    replace(src, "\r\n", "\n")
}

} // verus!

