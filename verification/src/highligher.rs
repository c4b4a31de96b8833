//! The [`Highligher`] turns a stream of characters into a stream of
//! [`Token`]s. Each token carries a type, and the type decides the color the
//! text gets in the code editor.
//!
//! The scan is a single pass: every call consumes one maximal run of
//! characters, emits exactly one token, and returns to the dispatch loop.
//! Two properties hold of the whole scan and are proved here: the literals of
//! the emitted tokens, concatenated in order, reproduce the input exactly
//! (nothing is lost, merged or duplicated), and every input — empty,
//! malformed or unterminated — yields a token sequence.

use vstd::prelude::*;
use vstd::string::StrSliceExecFns;
use vstd::string::StringExecFns;

verus! {

/// A [`Token`] is composed of a type and of its literal value.
#[derive(Debug)]
pub struct Token(pub TokenType, pub String);

/// All the different [`Token`] types that a text can be divided into. Each
/// type maps to one color when the editor draws the text; the colors come
/// from [`crate::settings::CodeColor`].
///
/// `Error` names a syntactic category of the betty language (its builtin
/// error names, such as `ValueError`); the lexer itself never fails.
#[derive(Debug, Clone, Copy, PartialEq, Eq, Structural)]
pub enum TokenType {
    Ident,
    Num,
    Str,
    Sym,
    Kw,
    BuiltinFun,
    Fun,
    Comment,
    Error,
    Other,
}

impl View for Token {
    type V = (TokenType, Seq<char>);

    open spec fn view(&self) -> (TokenType, Seq<char>) {
        (self.0, self.1@)
    }
}

// ---------------------------------------------------------------------------
// Character classes
// ---------------------------------------------------------------------------

pub open spec fn spec_is_letter(c: char) -> bool {
    ('a' <= c && c <= 'z') || ('A' <= c && c <= 'Z')
}

#[verifier::when_used_as_spec(spec_is_letter)]
pub fn is_letter(c: char) -> (b: bool)
    ensures
        b == spec_is_letter(c),
{
    ('a' <= c && c <= 'z') || ('A' <= c && c <= 'Z')
}

pub open spec fn spec_is_digit(c: char) -> bool {
    '0' <= c && c <= '9'
}

#[verifier::when_used_as_spec(spec_is_digit)]
pub fn is_digit(c: char) -> (b: bool)
    ensures
        b == spec_is_digit(c),
{
    '0' <= c && c <= '9'
}

/// Characters that may open an identifier.
pub open spec fn spec_is_ident_start(c: char) -> bool {
    spec_is_letter(c) || c == '_'
}

#[verifier::when_used_as_spec(spec_is_ident_start)]
pub fn is_ident_start(c: char) -> (b: bool)
    ensures
        b == spec_is_ident_start(c),
{
    is_letter(c) || c == '_'
}

/// Characters that may continue an identifier.
pub open spec fn spec_is_ident_char(c: char) -> bool {
    spec_is_ident_start(c) || spec_is_digit(c)
}

#[verifier::when_used_as_spec(spec_is_ident_char)]
pub fn is_ident_char(c: char) -> (b: bool)
    ensures
        b == spec_is_ident_char(c),
{
    is_ident_start(c) || is_digit(c)
}

/// Characters that belong to a number run: digits, the decimal point, and
/// the underscore used as a digit separator.
pub open spec fn spec_is_num_char(c: char) -> bool {
    spec_is_digit(c) || c == '.' || c == '_'
}

#[verifier::when_used_as_spec(spec_is_num_char)]
pub fn is_num_char(c: char) -> (b: bool)
    ensures
        b == spec_is_num_char(c),
{
    is_digit(c) || c == '.' || c == '_'
}

/// The characters the lookahead skips: spaces and tabs only.
pub open spec fn spec_is_blank(c: char) -> bool {
    c == ' ' || c == '\t'
}

#[verifier::when_used_as_spec(spec_is_blank)]
pub fn is_blank(c: char) -> (b: bool)
    ensures
        b == spec_is_blank(c),
{
    c == ' ' || c == '\t'
}

// ---------------------------------------------------------------------------
// The static classification tables of the betty language
// ---------------------------------------------------------------------------

/// The reserved keywords of betty.
pub open spec fn spec_keyword(w: Seq<char>) -> bool {
    ||| w == "and"@
    ||| w == "or"@
    ||| w == "not"@
    ||| w == "if"@
    ||| w == "else"@
    ||| w == "do"@
    ||| w == "end"@
    ||| w == "for"@
    ||| w == "foreach"@
    ||| w == "while"@
    ||| w == "fun"@
    ||| w == "continue"@
    ||| w == "break"@
    ||| w == "return"@
    ||| w == "match"@
    ||| w == "try"@
    ||| w == "catch"@
    ||| w == "in"@
    ||| w == "throw"@
    ||| w == "using"@
    ||| w == "as"@
    ||| w == "true"@
    ||| w == "false"@
    ||| w == "nothing"@
    ||| w == "newerror"@
}

/// The builtin errors of betty that can be caught and thrown.
pub open spec fn spec_error_name(w: Seq<char>) -> bool {
    ||| w == "ValueError"@
    ||| w == "TypeError"@
    ||| w == "UnknownIdentifierError"@
    ||| w == "OverflowError"@
    ||| w == "DivisionByZeroError"@
    ||| w == "IndexOutOfBoundsError"@
    ||| w == "FileIOError"@
    ||| w == "VectorMutationError"@
    ||| w == "ModuleImportError"@
    ||| w == "AssertionError"@
    ||| w == "WrongArgumentsNumberError"@
}

/// The builtin functions of betty.
pub open spec fn spec_builtin_fun(w: Seq<char>) -> bool {
    ||| w == "print"@
    ||| w == "println"@
    ||| w == "read_line"@
    ||| w == "to_int"@
    ||| w == "to_float"@
    ||| w == "to_str"@
    ||| w == "vpush_back"@
    ||| w == "vpush_front"@
    ||| w == "vpush_at"@
    ||| w == "vpop_front"@
    ||| w == "vpop_back"@
    ||| w == "vpop_at"@
    ||| w == "vfrom_range"@
    ||| w == "vcopy"@
    ||| w == "str_starts_with"@
    ||| w == "str_ends_with"@
    ||| w == "str_is_lowercase"@
    ||| w == "str_is_uppercase"@
    ||| w == "str_to_lowercase"@
    ||| w == "str_to_uppercase"@
    ||| w == "len"@
    ||| w == "get"@
    ||| w == "join"@
    ||| w == "slice"@
    ||| w == "split"@
    ||| w == "replace"@
    ||| w == "fread"@
    ||| w == "fwrite"@
    ||| w == "fappend"@
    ||| w == "err_short"@
    ||| w == "err_traceback"@
    ||| w == "err_kind"@
    ||| w == "err_line"@
    ||| w == "err_description"@
    ||| w == "assert"@
    ||| w == "isint"@
    ||| w == "isfloat"@
    ||| w == "isstr"@
    ||| w == "isbool"@
    ||| w == "isvec"@
    ||| w == "iscallable"@
    ||| w == "iserr"@
}

/// The single-character symbols of betty. Parentheses, brackets, comma and
/// period are deliberately absent so that they render in the fallback color.
pub open spec fn spec_is_symbol(c: char) -> bool {
    ||| c == '+'
    ||| c == '-'
    ||| c == '*'
    ||| c == '/'
    ||| c == '^'
    ||| c == '%'
    ||| c == ':'
    ||| c == '='
    ||| c == '>'
    ||| c == '<'
    ||| c == '!'
    ||| c == '?'
}

#[verifier::when_used_as_spec(spec_is_symbol)]
pub fn is_symbol(c: char) -> (b: bool)
    ensures
        b == spec_is_symbol(c),
{
    c == '+' || c == '-' || c == '*' || c == '/' || c == '^' || c == '%' || c == ':' || c == '='
        || c == '>' || c == '<' || c == '!' || c == '?'
}

/// Equality of an accumulated word against one table entry.
fn word_eq(w: &String, entry: &str) -> (r: bool)
    ensures
        r == (w@ == entry@),
{
    let e: String = String::from_str(entry);
    *w == e
}

/// Exact, case-sensitive membership in the keyword table.
pub fn is_keyword(w: &String) -> (r: bool)
    ensures
        r == spec_keyword(w@),
{
    word_eq(w, "and") || word_eq(w, "or") || word_eq(w, "not") || word_eq(w, "if")
        || word_eq(w, "else") || word_eq(w, "do") || word_eq(w, "end") || word_eq(w, "for")
        || word_eq(w, "foreach") || word_eq(w, "while") || word_eq(w, "fun")
        || word_eq(w, "continue") || word_eq(w, "break") || word_eq(w, "return")
        || word_eq(w, "match") || word_eq(w, "try") || word_eq(w, "catch") || word_eq(w, "in")
        || word_eq(w, "throw") || word_eq(w, "using") || word_eq(w, "as") || word_eq(w, "true")
        || word_eq(w, "false") || word_eq(w, "nothing") || word_eq(w, "newerror")
}

/// Exact, case-sensitive membership in the builtin-error table.
pub fn is_error_name(w: &String) -> (r: bool)
    ensures
        r == spec_error_name(w@),
{
    word_eq(w, "ValueError") || word_eq(w, "TypeError") || word_eq(w, "UnknownIdentifierError")
        || word_eq(w, "OverflowError") || word_eq(w, "DivisionByZeroError")
        || word_eq(w, "IndexOutOfBoundsError") || word_eq(w, "FileIOError")
        || word_eq(w, "VectorMutationError") || word_eq(w, "ModuleImportError")
        || word_eq(w, "AssertionError") || word_eq(w, "WrongArgumentsNumberError")
}

/// Exact, case-sensitive membership in the builtin-function table.
pub fn is_builtin_fun(w: &String) -> (r: bool)
    ensures
        r == spec_builtin_fun(w@),
{
    word_eq(w, "print") || word_eq(w, "println") || word_eq(w, "read_line")
        || word_eq(w, "to_int") || word_eq(w, "to_float") || word_eq(w, "to_str")
        || word_eq(w, "vpush_back") || word_eq(w, "vpush_front") || word_eq(w, "vpush_at")
        || word_eq(w, "vpop_front") || word_eq(w, "vpop_back") || word_eq(w, "vpop_at")
        || word_eq(w, "vfrom_range") || word_eq(w, "vcopy") || word_eq(w, "str_starts_with")
        || word_eq(w, "str_ends_with") || word_eq(w, "str_is_lowercase")
        || word_eq(w, "str_is_uppercase") || word_eq(w, "str_to_lowercase")
        || word_eq(w, "str_to_uppercase") || word_eq(w, "len") || word_eq(w, "get")
        || word_eq(w, "join") || word_eq(w, "slice") || word_eq(w, "split")
        || word_eq(w, "replace") || word_eq(w, "fread") || word_eq(w, "fwrite")
        || word_eq(w, "fappend") || word_eq(w, "err_short") || word_eq(w, "err_traceback")
        || word_eq(w, "err_kind") || word_eq(w, "err_line") || word_eq(w, "err_description")
        || word_eq(w, "assert") || word_eq(w, "isint") || word_eq(w, "isfloat")
        || word_eq(w, "isstr") || word_eq(w, "isbool") || word_eq(w, "isvec")
        || word_eq(w, "iscallable") || word_eq(w, "iserr")
}

// ---------------------------------------------------------------------------
// Maximal runs of a character class
// ---------------------------------------------------------------------------

/// Length of the maximal prefix of `s` made of identifier characters.
pub open spec fn ident_run(s: Seq<char>) -> nat
    decreases s.len(),
{
    if s.len() == 0 || !spec_is_ident_char(s[0]) {
        0
    } else {
        1 + ident_run(s.drop_first())
    }
}

/// Length of the maximal prefix of `s` made of number characters.
pub open spec fn num_run(s: Seq<char>) -> nat
    decreases s.len(),
{
    if s.len() == 0 || !spec_is_num_char(s[0]) {
        0
    } else {
        1 + num_run(s.drop_first())
    }
}

/// Length of the maximal prefix of `s` holding no closing quote.
pub open spec fn str_tail_run(s: Seq<char>) -> nat
    decreases s.len(),
{
    if s.len() == 0 || s[0] == '"' {
        0
    } else {
        1 + str_tail_run(s.drop_first())
    }
}

/// Length of the maximal prefix of `s` holding no newline.
pub open spec fn comment_tail_run(s: Seq<char>) -> nat
    decreases s.len(),
{
    if s.len() == 0 || s[0] == '\n' {
        0
    } else {
        1 + comment_tail_run(s.drop_first())
    }
}

proof fn lemma_ident_run_le(s: Seq<char>)
    ensures
        ident_run(s) <= s.len(),
    decreases s.len(),
{
    if s.len() != 0 && spec_is_ident_char(s[0]) {
        lemma_ident_run_le(s.drop_first());
    }
}

proof fn lemma_num_run_le(s: Seq<char>)
    ensures
        num_run(s) <= s.len(),
    decreases s.len(),
{
    if s.len() != 0 && spec_is_num_char(s[0]) {
        lemma_num_run_le(s.drop_first());
    }
}

proof fn lemma_str_tail_run_le(s: Seq<char>)
    ensures
        str_tail_run(s) <= s.len(),
    decreases s.len(),
{
    if s.len() != 0 && s[0] != '"' {
        lemma_str_tail_run_le(s.drop_first());
    }
}

proof fn lemma_comment_tail_run_le(s: Seq<char>)
    ensures
        comment_tail_run(s) <= s.len(),
    decreases s.len(),
{
    if s.len() != 0 && s[0] != '\n' {
        lemma_comment_tail_run_le(s.drop_first());
    }
}

/// A prefix of identifier characters bounded by a non-identifier character
/// (or the end of the text) is the maximal identifier run.
proof fn lemma_ident_run_is(s: Seq<char>, n: nat)
    requires
        n <= s.len(),
        forall|i: int| 0 <= i < n ==> spec_is_ident_char(#[trigger] s[i]),
        n < s.len() ==> !spec_is_ident_char(s[n as int]),
    ensures
        ident_run(s) == n,
    decreases n,
{
    if n > 0 {
        lemma_ident_run_is(s.drop_first(), (n - 1) as nat);
    }
}

proof fn lemma_num_run_is(s: Seq<char>, n: nat)
    requires
        n <= s.len(),
        forall|i: int| 0 <= i < n ==> spec_is_num_char(#[trigger] s[i]),
        n < s.len() ==> !spec_is_num_char(s[n as int]),
    ensures
        num_run(s) == n,
    decreases n,
{
    if n > 0 {
        lemma_num_run_is(s.drop_first(), (n - 1) as nat);
    }
}

proof fn lemma_str_tail_run_is(s: Seq<char>, n: nat)
    requires
        n <= s.len(),
        forall|i: int| 0 <= i < n ==> #[trigger] s[i] != '"',
        n < s.len() ==> s[n as int] == '"',
    ensures
        str_tail_run(s) == n,
    decreases n,
{
    if n > 0 {
        lemma_str_tail_run_is(s.drop_first(), (n - 1) as nat);
    }
}

proof fn lemma_comment_tail_run_is(s: Seq<char>, n: nat)
    requires
        n <= s.len(),
        forall|i: int| 0 <= i < n ==> #[trigger] s[i] != '\n',
        n < s.len() ==> s[n as int] == '\n',
    ensures
        comment_tail_run(s) == n,
    decreases n,
{
    if n > 0 {
        lemma_comment_tail_run_is(s.drop_first(), (n - 1) as nat);
    }
}

// ---------------------------------------------------------------------------
// Number acceptance
// ---------------------------------------------------------------------------

/// How many times `c` occurs in `s`.
pub open spec fn count_char(s: Seq<char>, c: char) -> nat
    decreases s.len(),
{
    if s.len() == 0 {
        0
    } else if s.last() == c {
        count_char(s.drop_last(), c) + 1
    } else {
        count_char(s.drop_last(), c)
    }
}

/// Whether `s` holds at least one decimal digit.
pub open spec fn has_digit(s: Seq<char>) -> bool {
    exists|i: int| 0 <= i < s.len() && spec_is_digit(#[trigger] s[i])
}

/// Whether a scanned number run reads as a number.
///
/// A number run holds only digits, decimal points and underscores, and the
/// underscores are stripped before the text is read first as a 64-bit
/// integer, then as a 64-bit real. Over that alphabet the two readings
/// together succeed exactly when a digit is present and at most one decimal
/// point occurs: a plain digit run is an integer (or, past the integer
/// range, still a real), one decimal point beside at least one digit is a
/// real, and a second decimal point — or a run with no digit at all —
/// defeats both readings. Underscores never change the outcome.
pub open spec fn num_accepted(s: Seq<char>) -> bool {
    has_digit(s) && count_char(s, '.') <= 1
}

// ---------------------------------------------------------------------------
// Lookahead
// ---------------------------------------------------------------------------

/// The first character of `s` that is not a space or a tab, if any.
pub open spec fn first_nonblank(s: Seq<char>) -> Option<char>
    decreases s.len(),
{
    if s.len() == 0 {
        None
    } else if !spec_is_blank(s[0]) {
        Some(s[0])
    } else {
        first_nonblank(s.drop_first())
    }
}

/// Whether the next meaningful character of the unconsumed input `s` equals
/// `ch`: true at once when the current character (the first of `s`) is `ch`;
/// otherwise the characters after the current one are searched, skipping
/// spaces and tabs only, and the first one found is compared.
pub open spec fn spec_next_is(s: Seq<char>, ch: char) -> bool {
    if s.len() == 0 {
        false
    } else if s[0] == ch {
        true
    } else {
        first_nonblank(s.drop_first()) == Some(ch)
    }
}

/// Dropping a blank prefix does not change the first non-blank character.
proof fn lemma_first_nonblank_skip(s: Seq<char>, k: nat)
    requires
        k <= s.len(),
        forall|i: int| 0 <= i < k ==> spec_is_blank(#[trigger] s[i]),
    ensures
        first_nonblank(s) == first_nonblank(s.skip(k as int)),
    decreases k,
{
    if k > 0 {
        lemma_first_nonblank_skip(s.drop_first(), (k - 1) as nat);
        assert(s.drop_first().skip(k - 1) =~= s.skip(k as int));
    } else {
        assert(s.skip(0) =~= s);
    }
}

/// Priority classification of an accumulated identifier run: a keyword
/// first, then a builtin function, then a builtin error, then — when the
/// next meaningful character of the rest of the input is an opening
/// parenthesis — a user-defined call site, else a plain identifier.
///
/// The order matters: a builtin function keeps its own color even right
/// before a parenthesis.
pub open spec fn spec_classify_word(w: Seq<char>, rest: Seq<char>) -> TokenType {
    if spec_keyword(w) {
        TokenType::Kw
    } else if spec_builtin_fun(w) {
        TokenType::BuiltinFun
    } else if spec_error_name(w) {
        TokenType::Error
    } else if spec_next_is(rest, '(') {
        TokenType::Fun
    } else {
        TokenType::Ident
    }
}

// ---------------------------------------------------------------------------
// The token stream model
// ---------------------------------------------------------------------------

/// One dispatch step: the token type and the number of characters that the
/// scan consumes for the first token of the nonempty input `s`. The current
/// character alone picks the scan routine; each routine owns a maximal run.
pub open spec fn spec_step(s: Seq<char>) -> (TokenType, nat)
    recommends
        s.len() > 0,
{
    let c = s[0];
    if spec_is_ident_start(c) {
        let n = ident_run(s);
        (spec_classify_word(s.take(n as int), s.skip(n as int)), n)
    } else if spec_is_digit(c) {
        let n = num_run(s);
        (
            if num_accepted(s.take(n as int)) {
                TokenType::Num
            } else {
                TokenType::Other
            },
            n,
        )
    } else if c == '"' {
        let body = str_tail_run(s.drop_first());
        let n: nat = if 1 + body < s.len() {
            (body + 2) as nat
        } else {
            s.len()
        };
        (TokenType::Str, n)
    } else if c == '|' {
        (TokenType::Comment, 1 + comment_tail_run(s.drop_first()))
    } else {
        (
            if spec_is_symbol(c) {
                TokenType::Sym
            } else {
                TokenType::Other
            },
            1,
        )
    }
}

/// Every dispatch step consumes at least one character and no more than
/// the whole input: the scan strictly advances and never overruns.
pub proof fn lemma_step_bounds(s: Seq<char>)
    requires
        s.len() > 0,
    ensures
        1 <= spec_step(s).1 <= s.len(),
{
    if spec_is_ident_start(s[0]) {
        lemma_ident_run_le(s);
    } else if spec_is_digit(s[0]) {
        lemma_num_run_le(s);
    } else if s[0] == '"' {
        lemma_str_tail_run_le(s.drop_first());
    } else if s[0] == '|' {
        lemma_comment_tail_run_le(s.drop_first());
    }
}

/// The token stream of the input `s`: the mathematical model of the lexer.
/// Tokens come in left-to-right input order, one per dispatch step.
pub open spec fn spec_tokenize(s: Seq<char>) -> Seq<(TokenType, Seq<char>)>
    decreases s.len(),
    via spec_tokenize_dec
{
    if s.len() == 0 {
        Seq::empty()
    } else {
        let (typ, n) = spec_step(s);
        seq![(typ, s.take(n as int))] + spec_tokenize(s.skip(n as int))
    }
}

#[via_fn]
proof fn spec_tokenize_dec(s: Seq<char>) {
    if s.len() > 0 {
        lemma_step_bounds(s);
    }
}

/// The views of the emitted tokens, in order.
pub open spec fn token_views(ts: Seq<Token>) -> Seq<(TokenType, Seq<char>)> {
    ts.map_values(|t: Token| t@)
}

/// The literals of a token stream, concatenated in emitted order.
pub open spec fn concat_literals(ts: Seq<(TokenType, Seq<char>)>) -> Seq<char>
    decreases ts.len(),
{
    if ts.len() == 0 {
        Seq::empty()
    } else {
        ts[0].1 + concat_literals(ts.drop_first())
    }
}

/// Losslessness: concatenating the literals of the token stream of `s`, in
/// emitted order, reproduces `s` exactly. No character is dropped, merged
/// into the wrong token, or duplicated — whatever the input holds.
pub proof fn lemma_tokenize_lossless(s: Seq<char>)
    ensures
        concat_literals(spec_tokenize(s)) == s,
    decreases s.len(),
{
    if s.len() == 0 {
        assert(concat_literals(spec_tokenize(s)) =~= s);
    } else {
        lemma_step_bounds(s);
        let n = spec_step(s).1;
        let first = (spec_step(s).0, s.take(n as int));
        let rest = spec_tokenize(s.skip(n as int));
        lemma_tokenize_lossless(s.skip(n as int));
        assert(spec_tokenize(s) == seq![first] + rest);
        assert((seq![first] + rest)[0] == first);
        assert((seq![first] + rest).drop_first() =~= rest);
        assert(concat_literals(spec_tokenize(s)) == s.take(n as int) + concat_literals(rest));
        assert(s.take(n as int) + s.skip(n as int) =~= s);
    }
}

// ---------------------------------------------------------------------------
// The scanner
// ---------------------------------------------------------------------------

/// The struct responsible for the analysis of the code editor text. It
/// receives the text as a sequence of characters and returns a sequence of
/// tokens out of it.
///
/// The scan position is an index into an immutable character buffer; the
/// characters from that index on are the unconsumed rest of the input.
pub struct Highligher {
    text: String,
    chars: Vec<char>,
    pos: usize,
}

impl Highligher {
    /// The characters of the buffer are those of the text, and the cursor
    /// stands inside the buffer.
    pub closed spec fn wf(&self) -> bool {
        self.chars@ == self.text@ && self.pos <= self.chars@.len()
    }

    /// The whole input this scanner was built over. It never changes.
    pub closed spec fn source(&self) -> Seq<char> {
        self.chars@
    }

    /// How many characters of the input have been consumed.
    pub closed spec fn cursor(&self) -> nat {
        self.pos as nat
    }

    /// The unconsumed rest of the input, current character first.
    pub open spec fn remaining(&self) -> Seq<char> {
        self.source().skip(self.cursor() as int)
    }

    pub fn new(source: String) -> (h: Highligher)
        ensures
            h.wf(),
            h.source() == source@,
            h.cursor() == 0,
            h.remaining() == source@,
    {
        let n: usize = source.as_str().unicode_len();
        let mut chars: Vec<char> = Vec::new();
        let mut i: usize = 0;
        while i < n
            invariant
                i <= n,
                n == source@.len(),
                chars@ == source@.take(i as int),
            decreases n - i,
        {
            chars.push(source.as_str().get_char(i));
            proof {
                assert(chars@ =~= source@.take(i + 1));
            }
            i = i + 1;
        }
        proof {
            assert(chars@ =~= source@);
        }
        let h = Highligher { text: source, chars, pos: 0 };
        proof {
            assert(h.remaining() =~= h.chars@);
        }
        h
    }

    /// Advance past the current character of the stream.
    pub fn advance(&mut self)
        requires
            old(self).wf(),
        ensures
            final(self).wf(),
            final(self).source() == old(self).source(),
            final(self).cursor() == if old(self).remaining().len() > 0 {
                old(self).cursor() + 1
            } else {
                old(self).cursor()
            },
            final(self).remaining() == if old(self).remaining().len() > 0 {
                old(self).remaining().drop_first()
            } else {
                old(self).remaining()
            },
    {
        if self.pos < self.chars.len() {
            self.pos = self.pos + 1;
        }
        proof {
            if old(self).remaining().len() > 0 {
                assert(self.remaining() =~= old(self).remaining().drop_first());
            }
        }
    }

    /// The current character, or `None` at the end of the input.
    fn current(&self) -> (c: Option<char>)
        requires
            self.wf(),
        ensures
            c == if self.remaining().len() > 0 {
                Some(self.remaining()[0])
            } else {
                None::<char>
            },
    {
        if self.pos < self.chars.len() {
            Some(self.chars[self.pos])
        } else {
            None
        }
    }

    /// Checks whether the next meaningful character of the stream is `ch`,
    /// without consuming anything. Spaces and tabs after the current
    /// character are skipped; no other characters are.
    fn next_is(&self, ch: char) -> (r: bool)
        requires
            self.wf(),
        ensures
            r == spec_next_is(self.remaining(), ch),
    {
        match self.current() {
            Some(c) => {
                if c == ch {
                    return true;
                }
            },
            None => {
                return false;
            },
        }
        let len: usize = self.chars.len();
        proof {
            assert(self.remaining().len() > 0);
            assert(self.pos < len);
        }
        let ghost rest = self.remaining().drop_first();
        let mut i: usize = self.pos + 1;
        while i < self.chars.len()
            invariant
                self.wf(),
                self.remaining().len() > 0,
                self.remaining()[0] != ch,
                self.pos < i <= self.chars@.len(),
                rest == self.chars@.skip(self.pos + 1),
                forall|j: int| self.pos + 1 <= j < i ==> spec_is_blank(#[trigger] self.chars@[j]),
            decreases self.chars@.len() - i,
        {
            let c = self.chars[i];
            if !is_blank(c) {
                proof {
                    lemma_first_nonblank_skip(rest, (i - (self.pos + 1)) as nat);
                    assert(first_nonblank(rest) == first_nonblank(
                        rest.skip((i - (self.pos + 1)) as int),
                    ));
                    assert(rest.skip((i - (self.pos + 1)) as int) =~= self.chars@.skip(i as int));
                    assert(self.chars@.skip(i as int)[0] == c);
                    assert(first_nonblank(self.chars@.skip(i as int)) == Some(c));
                    assert(first_nonblank(rest) == Some(c));
                    assert(rest == self.remaining().drop_first());
                }
                return c == ch;
            }
            i = i + 1;
        }
        proof {
            lemma_first_nonblank_skip(rest, (i - (self.pos + 1)) as nat);
            assert(rest.skip(i - (self.pos + 1)) =~= self.chars@.skip(i as int));
        }
        false
    }

    /// Make a token out of the single character `ch`: a symbol of the fixed
    /// symbol set, or the universal fallback.
    fn make_sym_or_other(&mut self, ch: char) -> (t: Token)
        requires
            old(self).wf(),
            old(self).remaining().len() > 0,
            old(self).remaining()[0] == ch,
        ensures
            final(self).wf(),
            final(self).remaining() == old(self).remaining().drop_first(),
            t@.1 == old(self).remaining().take(1),
            t@.0 == if spec_is_symbol(ch) {
                TokenType::Sym
            } else {
                TokenType::Other
            },
    {
        let typ = if is_symbol(ch) {
            TokenType::Sym
        } else {
            TokenType::Other
        };
        let len: usize = self.chars.len();
        proof {
            assert(self.pos < len);
        }
        let lit: String = self.text.as_str().substring_char(self.pos, self.pos + 1).to_owned();
        proof {
            assert(lit@ =~= old(self).remaining().take(1));
        }
        self.advance();
        Token(typ, lit)
    }

    /// Make a comment token. A comment starts with the pipe character and
    /// runs to the end of the line: everything up to, and excluding, the
    /// next newline (or to the end of the input) belongs to its literal.
    fn make_comment(&mut self) -> (t: Token)
        requires
            old(self).wf(),
            old(self).remaining().len() > 0,
            old(self).remaining()[0] == '|',
        ensures
            final(self).wf(),
            ({
                let s = old(self).remaining();
                let n = 1 + comment_tail_run(s.drop_first());
                &&& final(self).remaining() == s.skip(n as int)
                &&& t@.1 == s.take(n as int)
                &&& t@.0 == TokenType::Comment
            }),
    {
        let start: usize = self.pos;
        let ghost s = self.remaining();
        self.advance();
        loop
            invariant
                self.wf(),
                self.chars@ == old(self).chars@,
                self.text@ == old(self).text@,
                start == old(self).pos,
                start < self.pos <= self.chars@.len(),
                s == self.chars@.skip(start as int),
                forall|j: int| start + 1 <= j < self.pos ==> #[trigger] self.chars@[j] != '\n',
            ensures
                self.wf(),
                self.chars@ == old(self).chars@,
                self.text@ == old(self).text@,
                start < self.pos <= self.chars@.len(),
                forall|j: int| start + 1 <= j < self.pos ==> #[trigger] self.chars@[j] != '\n',
                self.pos == self.chars@.len() || self.chars@[self.pos as int] == '\n',
            decreases self.chars@.len() - self.pos,
        {
            match self.current() {
                Some(c) => {
                    if c == '\n' {
                        break;
                    }
                    self.advance();
                },
                None => {
                    break;
                },
            }
        }
        proof {
            assert(s.drop_first() =~= self.chars@.skip(start + 1));
            lemma_comment_tail_run_is(s.drop_first(), (self.pos - (start + 1)) as nat);
        }
        let lit: String = self.text.as_str().substring_char(start, self.pos).to_owned();
        proof {
            assert(lit@ =~= s.take(self.pos - start));
            assert(self.remaining() =~= s.skip(self.pos - start));
        }
        Token(TokenType::Comment, lit)
    }

    /// Make a string token. The literal keeps the opening quote; the scan
    /// runs to the first closing quote (kept as well) or, for an
    /// unterminated string, to the end of the input, with no synthetic
    /// closing quote added. No escape sequences exist.
    fn make_str(&mut self) -> (t: Token)
        requires
            old(self).wf(),
            old(self).remaining().len() > 0,
            old(self).remaining()[0] == '"',
        ensures
            final(self).wf(),
            ({
                let s = old(self).remaining();
                let body = str_tail_run(s.drop_first());
                let n: nat = if 1 + body < s.len() {
                    (body + 2) as nat
                } else {
                    s.len()
                };
                &&& final(self).remaining() == s.skip(n as int)
                &&& t@.1 == s.take(n as int)
                &&& t@.0 == TokenType::Str
            }),
    {
        let start: usize = self.pos;
        let ghost s = self.remaining();
        self.advance();
        loop
            invariant_except_break
                forall|j: int| start + 1 <= j < self.pos ==> #[trigger] self.chars@[j] != '"',
            invariant
                self.wf(),
                self.chars@ == old(self).chars@,
                self.text@ == old(self).text@,
                start == old(self).pos,
                start < self.pos <= self.chars@.len(),
                s == self.chars@.skip(start as int),
            ensures
                self.wf(),
                self.chars@ == old(self).chars@,
                self.text@ == old(self).text@,
                start < self.pos <= self.chars@.len(),
                (self.chars@[self.pos - 1] == '"' && self.pos > start + 1 && forall|j: int|
                    start + 1 <= j < self.pos - 1 ==> #[trigger] self.chars@[j] != '"') || (
                self.pos == self.chars@.len() && forall|j: int|
                    start + 1 <= j < self.pos ==> #[trigger] self.chars@[j] != '"'),
            decreases self.chars@.len() - self.pos,
        {
            match self.current() {
                Some(c) => {
                    if c != '"' {
                        self.advance();
                    } else {
                        self.advance();
                        break;
                    }
                },
                None => {
                    break;
                },
            }
        }
        proof {
            assert(s.drop_first() =~= self.chars@.skip(start + 1));
            if self.pos == self.chars@.len() && (self.pos == start + 1 || self.chars@[self.pos
                - 1] != '"') {
                lemma_str_tail_run_is(s.drop_first(), (self.pos - (start + 1)) as nat);
            } else {
                lemma_str_tail_run_is(s.drop_first(), (self.pos - 1 - (start + 1)) as nat);
            }
        }
        let lit: String = self.text.as_str().substring_char(start, self.pos).to_owned();
        proof {
            assert(lit@ =~= s.take(self.pos - start));
            assert(self.remaining() =~= s.skip(self.pos - start));
        }
        Token(TokenType::Str, lit)
    }

    /// Make a number token out of the maximal run of digits, decimal points
    /// and underscores. The literal keeps its underscores; whether the run
    /// reads as a number decides between the number type and the fallback.
    fn make_num(&mut self) -> (t: Token)
        requires
            old(self).wf(),
            old(self).remaining().len() > 0,
            spec_is_digit(old(self).remaining()[0]),
        ensures
            final(self).wf(),
            ({
                let s = old(self).remaining();
                let n = num_run(s);
                &&& final(self).remaining() == s.skip(n as int)
                &&& t@.1 == s.take(n as int)
                &&& t@.0 == if num_accepted(s.take(n as int)) {
                    TokenType::Num
                } else {
                    TokenType::Other
                }
            }),
    {
        let start: usize = self.pos;
        let ghost s = self.remaining();
        let mut dots: usize = 0;
        loop
            invariant
                self.wf(),
                self.chars@ == old(self).chars@,
                self.text@ == old(self).text@,
                start == old(self).pos,
                start <= self.pos <= self.chars@.len(),
                s == self.chars@.skip(start as int),
                forall|j: int|
                    start <= j < self.pos ==> spec_is_num_char(#[trigger] self.chars@[j]),
                dots == count_char(self.chars@.subrange(start as int, self.pos as int), '.'),
                dots <= self.pos - start,
            ensures
                self.wf(),
                self.chars@ == old(self).chars@,
                self.text@ == old(self).text@,
                start <= self.pos <= self.chars@.len(),
                forall|j: int|
                    start <= j < self.pos ==> spec_is_num_char(#[trigger] self.chars@[j]),
                dots == count_char(self.chars@.subrange(start as int, self.pos as int), '.'),
                self.pos == self.chars@.len() || !spec_is_num_char(
                    self.chars@[self.pos as int],
                ),
            decreases self.chars@.len() - self.pos,
        {
            match self.current() {
                Some(c) => {
                    if is_num_char(c) {
                        proof {
                            assert(self.chars@.subrange(start as int, self.pos + 1).drop_last()
                                =~= self.chars@.subrange(start as int, self.pos as int));
                            assert(self.chars@.subrange(start as int, self.pos + 1).last()
                                == c);
                        }
                        self.advance();
                        if c == '.' {
                            dots = dots + 1;
                        }
                    } else {
                        break;
                    }
                },
                None => {
                    break;
                },
            }
        }
        proof {
            lemma_num_run_is(s, (self.pos - start) as nat);
        }
        let lit: String = self.text.as_str().substring_char(start, self.pos).to_owned();
        let typ = if dots <= 1 {
            TokenType::Num
        } else {
            TokenType::Other
        };
        proof {
            assert(lit@ =~= s.take(self.pos - start));
            assert(lit@ =~= self.chars@.subrange(start as int, self.pos as int));
            assert(spec_is_digit(lit@[0]));
            assert(has_digit(lit@));
            assert(self.remaining() =~= s.skip(self.pos - start));
        }
        Token(typ, lit)
    }

    /// Make a token out of the maximal identifier run and classify it: a
    /// reserved keyword, a builtin function, a builtin error, a user call
    /// site spotted by lookahead for an opening parenthesis, or a plain
    /// identifier — in that strict priority order.
    fn make_ident(&mut self) -> (t: Token)
        requires
            old(self).wf(),
            old(self).remaining().len() > 0,
            spec_is_ident_start(old(self).remaining()[0]),
        ensures
            final(self).wf(),
            ({
                let s = old(self).remaining();
                let n = ident_run(s);
                &&& final(self).remaining() == s.skip(n as int)
                &&& t@.1 == s.take(n as int)
                &&& t@.0 == spec_classify_word(s.take(n as int), s.skip(n as int))
            }),
    {
        let start: usize = self.pos;
        let ghost s = self.remaining();
        loop
            invariant
                self.wf(),
                self.chars@ == old(self).chars@,
                self.text@ == old(self).text@,
                start == old(self).pos,
                start <= self.pos <= self.chars@.len(),
                s == self.chars@.skip(start as int),
                forall|j: int|
                    start <= j < self.pos ==> spec_is_ident_char(#[trigger] self.chars@[j]),
            ensures
                self.wf(),
                self.chars@ == old(self).chars@,
                self.text@ == old(self).text@,
                start <= self.pos <= self.chars@.len(),
                forall|j: int|
                    start <= j < self.pos ==> spec_is_ident_char(#[trigger] self.chars@[j]),
                self.pos == self.chars@.len() || !spec_is_ident_char(
                    self.chars@[self.pos as int],
                ),
            decreases self.chars@.len() - self.pos,
        {
            match self.current() {
                Some(c) => {
                    if is_ident_char(c) {
                        self.advance();
                    } else {
                        break;
                    }
                },
                None => {
                    break;
                },
            }
        }
        proof {
            lemma_ident_run_is(s, (self.pos - start) as nat);
        }
        let lit: String = self.text.as_str().substring_char(start, self.pos).to_owned();
        proof {
            assert(lit@ =~= s.take(self.pos - start));
            assert(self.remaining() =~= s.skip(self.pos - start));
        }
        let typ = if is_keyword(&lit) {
            TokenType::Kw
        } else if is_builtin_fun(&lit) {
            TokenType::BuiltinFun
        } else if is_error_name(&lit) {
            TokenType::Error
        } else if self.next_is('(') {
            TokenType::Fun
        } else {
            TokenType::Ident
        };
        Token(typ, lit)
    }

    /// Main function: loop over all the characters, turn them into tokens
    /// and hand them back once no character is left.
    ///
    /// The result is exactly the mathematical token stream of the input:
    /// the scan is total — every text, including the empty one, yields a
    /// stream — and deterministic, since the stream is a function of the
    /// text alone. The concatenation of the literals in emitted order is
    /// the input itself.
    pub fn make_tokens(self) -> (tokens: Vec<Token>)
        requires
            self.wf(),
        ensures
            token_views(tokens@) == spec_tokenize(self.remaining()),
            concat_literals(token_views(tokens@)) == self.remaining(),
    {
        let ghost orig = self.remaining();
        let mut lx = self;
        let mut tokens: Vec<Token> = Vec::new();
        proof {
            assert(token_views(tokens@) + spec_tokenize(orig) =~= spec_tokenize(orig));
        }
        loop
            invariant
                lx.wf(),
                orig == self.remaining(),
                spec_tokenize(orig) == token_views(tokens@) + spec_tokenize(lx.remaining()),
            ensures
                lx.remaining().len() == 0,
                spec_tokenize(orig) == token_views(tokens@) + spec_tokenize(lx.remaining()),
            decreases lx.remaining().len(),
        {
            let ghost r_old = lx.remaining();
            let ghost tv_old = tokens@;
            let token = match lx.current() {
                Some(ch) => {
                    if is_ident_start(ch) {
                        lx.make_ident()
                    } else if is_digit(ch) {
                        lx.make_num()
                    } else if ch == '"' {
                        lx.make_str()
                    } else if ch == '|' {
                        lx.make_comment()
                    } else {
                        lx.make_sym_or_other(ch)
                    }
                },
                None => {
                    break;
                },
            };
            proof {
                lemma_step_bounds(r_old);
                assert(token@.0 == spec_step(r_old).0);
                assert(token@.1 == r_old.take(spec_step(r_old).1 as int));
                assert(lx.remaining() == r_old.skip(spec_step(r_old).1 as int));
                assert(spec_tokenize(r_old) == seq![(spec_step(r_old).0, r_old.take(
                    spec_step(r_old).1 as int,
                ))] + spec_tokenize(lx.remaining()));
            }
            tokens.push(token);
            proof {
                assert(token_views(tokens@) =~= token_views(tv_old) + seq![token@]);
                assert((token_views(tv_old) + seq![token@]) + spec_tokenize(lx.remaining())
                    =~= token_views(tv_old) + (seq![token@] + spec_tokenize(lx.remaining())));
            }
        }
        proof {
            assert(spec_tokenize(lx.remaining()) =~= Seq::<(TokenType, Seq<char>)>::empty());
            assert(token_views(tokens@) + spec_tokenize(lx.remaining()) =~= token_views(
                tokens@,
            ));
            lemma_tokenize_lossless(orig);
        }
        tokens
    }
}

} // verus!
