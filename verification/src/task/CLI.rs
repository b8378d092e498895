use vstd::prelude::*;

verus! {

broadcast use vstd::string::axiom_spec_iter;

/// The characters of a string, in order.
fn chars_of(s: &str) -> (chars: Vec<char>)
    ensures
        chars@ == s@,
{
    let mut chars: Vec<char> = Vec::new();
    for c in it: s.chars()
        invariant
            it.seq() == s@,
            chars@ == it.seq().take(it.index()),
    {
        assert(it.seq().take(it.index() + 1) =~= it.seq().take(it.index()).push(c));
        chars.push(c);
    }
    assert(s@.take(s@.len() as int) =~= s@);
    chars
}


/// The kinds of token a command line is made of.
#[derive(Debug, PartialEq, Eq, Structural, Clone, Copy)]
pub enum LexType {
    Number,
    Stri,
    Add,
    Mult,
    Div,
    Sub,
    DirPointer,
    Ls,
    Stringy,
    CreateDir,
    ZeroDir,
    CreateRoot,
    CreateFile,
}

/// The four arithmetic operators. Each ends a word and is a token of its own.
pub open spec fn is_operator(c: char) -> bool {
    c == '+' || c == '*' || c == '/' || c == '-'
}

/// The characters that end a word: the operators and space.
pub open spec fn is_separator(c: char) -> bool {
    is_operator(c) || c == ' '
}

/// The token type of an operator character.
pub open spec fn operator_type(c: char) -> LexType {
    if c == '+' {
        LexType::Add
    } else if c == '*' {
        LexType::Mult
    } else if c == '/' {
        LexType::Div
    } else {
        LexType::Sub
    }
}

/// The type of an operator token.
pub open spec fn is_operator_type(t: LexType) -> bool {
    t == LexType::Add || t == LexType::Mult || t == LexType::Div || t == LexType::Sub
}

/// Every character of `s` is ASCII.
pub open spec fn all_ascii(s: Seq<char>) -> bool {
    forall|i: int| 0 <= i < s.len() ==> (#[trigger] s[i]) < 128
}

/// The ASCII lower-case of `c`: `A`..`Z` become `a`..`z`, every other
/// character stays.
pub open spec fn ascii_lower(c: char) -> char {
    if 'A' <= c <= 'Z' {
        (c as int + 32) as char
    } else {
        c
    }
}

/// `s` with every character ASCII lower-cased.
pub open spec fn ascii_lowercase(s: Seq<char>) -> Seq<char> {
    s.map_values(|c: char| ascii_lower(c))
}

/// What `str::to_lowercase` of the standard library returns for a string
/// with the characters `s` (full Unicode lower-casing).
pub uninterp spec fn lowercase(s: Seq<char>) -> Seq<char>;

/// Lower-cases `s` with `str::to_lowercase`.
///
/// Trusted: the result is the standard library's Unicode lower-casing of
/// `s`, named by `lowercase`. Of it, only the ASCII case is spelled out:
/// Unicode lower-cases `A`..`Z` to `a`..`z` and keeps the other ASCII
/// characters. What it does to other characters is left unsaid.
#[verifier::external_body]
fn to_lowercase(s: &str) -> (lowered: String)
    ensures
        lowered@ == lowercase(s@),
        all_ascii(s@) ==> lowered@ == ascii_lowercase(s@),
{
    s.to_lowercase()
}

/// Appends `c` to `s` with `String::push`.
///
/// Trusted: the standard library documents that `push` appends the given
/// character to the end of the string.
#[verifier::external_body]
fn push_char(s: &mut String, c: char)
    ensures
        final(s)@ == old(s)@.push(c),
{
    s.push(c)
}

/// The token type of a word whose lower-cased characters are `lowered`:
/// one of the six command keywords, or `Stringy` for anything else.
pub open spec fn keyword_type(lowered: Seq<char>) -> LexType {
    if lowered == seq!['d', 'i', 'r', 'p', 'o', 'i', 'n', 't', 'e', 'r'] {
        LexType::DirPointer
    } else if lowered == seq!['l', 's'] {
        LexType::Ls
    } else if lowered == seq!['c', 'd', 'i', 'r'] {
        LexType::CreateDir
    } else if lowered == seq!['z', 'b'] {
        LexType::ZeroDir
    } else if lowered == seq!['c', 'r'] {
        LexType::CreateRoot
    } else if lowered == seq!['c', 'f'] {
        LexType::CreateFile
    } else {
        LexType::Stringy
    }
}

/// The token type of a word: `Number` when it is all decimal digits, else
/// a keyword (recognised whatever its case) or `Stringy`.
pub open spec fn word_type(word: Seq<char>) -> LexType {
    if all_digits(word) {
        LexType::Number
    } else {
        keyword_type(lowercase(word))
    }
}

/// Whether the characters `s` are exactly `word`.
fn chars_equal(s: &Vec<char>, word: &[char]) -> (equal: bool)
    ensures
        equal == (s@ == word@),
{
    if s.len() != word.len() {
        return false;
    }
    let mut i: usize = 0;
    while i < s.len()
        invariant
            s@.len() == word@.len(),
            i <= s@.len(),
            forall|j: int| 0 <= j < i ==> s@[j] == word@[j],
        decreases s@.len() - i,
    {
        if s[i] != word[i] {
            return false;
        }
        i = i + 1;
    }
    assert(s@ =~= word@);
    true
}

/// Classifies an already lower-cased word.
pub fn classify_word(lowered: &str) -> (token_type: LexType)
    ensures
        token_type == keyword_type(lowered@),
{
    let chars = chars_of(lowered);
    if chars_equal(&chars, &['d', 'i', 'r', 'p', 'o', 'i', 'n', 't', 'e', 'r']) {
        LexType::DirPointer
    } else if chars_equal(&chars, &['l', 's']) {
        LexType::Ls
    } else if chars_equal(&chars, &['c', 'd', 'i', 'r']) {
        LexType::CreateDir
    } else if chars_equal(&chars, &['z', 'b']) {
        LexType::ZeroDir
    } else if chars_equal(&chars, &['c', 'r']) {
        LexType::CreateRoot
    } else if chars_equal(&chars, &['c', 'f']) {
        LexType::CreateFile
    } else {
        LexType::Stringy
    }
}


/// `done` with the word `cur` appended as a token, unless `cur` is empty.
pub open spec fn flush_word(done: Seq<(Seq<char>, LexType)>, cur: Seq<char>) -> Seq<(Seq<char>, LexType)> {
    if cur.len() > 0 {
        done.push((cur, word_type(cur)))
    } else {
        done
    }
}

/// Reading `s` left to right: the tokens finished so far, and the word
/// being read. A separator finishes the word; an operator then adds a token
/// of its own.
pub open spec fn scan_tokens(s: Seq<char>) -> (Seq<(Seq<char>, LexType)>, Seq<char>)
    decreases s.len(),
{
    if s.len() == 0 {
        (Seq::empty(), Seq::empty())
    } else {
        let (done, cur) = scan_tokens(s.drop_last());
        let c = s.last();
        if is_operator(c) {
            (flush_word(done, cur).push((seq![c], operator_type(c))), Seq::empty())
        } else if c == ' ' {
            (flush_word(done, cur), Seq::empty())
        } else {
            (done, cur.push(c))
        }
    }
}

/// The tokens of a command line: its maximal non-empty runs of characters
/// that are no separators, each typed by `word_type`, and each operator, in
/// the order they stand. Spaces only separate.
pub open spec fn lex_spec(s: Seq<char>) -> Seq<(Seq<char>, LexType)> {
    flush_word(scan_tokens(s).0, scan_tokens(s).1)
}

/// A token as plain values: its text and its type.
pub open spec fn token_view(t: Box<(String, LexType)>) -> (Seq<char>, LexType) {
    (t.0@, t.1)
}

/// A token list as plain values.
pub open spec fn tokens_view(v: Seq<Box<(String, LexType)>>) -> Seq<(Seq<char>, LexType)> {
    v.map_values(|t: Box<(String, LexType)>| token_view(t))
}

/// For every word token (any token but an operator) whose text is ASCII,
/// `lowercase` is known to be ASCII lower-casing.
pub open spec fn words_lowercased_ascii(t: Seq<(Seq<char>, LexType)>) -> bool {
    forall|i: int|
        0 <= i < t.len() && !is_operator_type(#[trigger] t[i].1) && all_ascii(t[i].0) ==> lowercase(
            t[i].0,
        ) == ascii_lowercase(t[i].0)
}

/// Whether every character of `s` is a decimal digit.
fn is_number(s: &String) -> (number: bool)
    ensures
        number == all_digits(s@),
{
    let chars = chars_of(s.as_str());
    let mut i: usize = 0;
    while i < chars.len()
        invariant
            chars@ == s@,
            i <= chars@.len(),
            forall|j: int| 0 <= j < i ==> is_digit(#[trigger] chars@[j]),
        decreases chars@.len() - i,
    {
        if !('0' <= chars[i] && chars[i] <= '9') {
            assert(!is_digit(chars@[i as int]));
            return false;
        }
        i = i + 1;
    }
    true
}

/// The type of a word token.
fn word_token_type(word: &String) -> (token_type: LexType)
    ensures
        token_type == word_type(word@),
        all_ascii(word@) ==> lowercase(word@) == ascii_lowercase(word@),
{
    let lowered = to_lowercase(word.as_str());
    if is_number(word) {
        LexType::Number
    } else {
        classify_word(lowered.as_str())
    }
}

/// The type of an operator character.
fn operator_token_type(c: char) -> (token_type: LexType)
    requires
        is_operator(c),
    ensures
        token_type == operator_type(c),
{
    if c == '+' {
        LexType::Add
    } else if c == '*' {
        LexType::Mult
    } else if c == '/' {
        LexType::Div
    } else {
        LexType::Sub
    }
}

/// Splits a command line into tokens: words, typed by `word_type`, and the
/// operators `+ * / -`, each a token of its own. Spaces only separate.
pub fn lexer(command: &str) -> (tokens: Vec<Box<(String, LexType)>>)
    ensures
        tokens_view(tokens@) == lex_spec(command@),
        words_lowercased_ascii(tokens_view(tokens@)),
{
    let mut vec: Vec<Box<(String, LexType)>> = Vec::new();
    let mut tmp = String::new();
    let chars = chars_of(command);
    let n = chars.len();
    let mut i: usize = 0;
    while i < n
        invariant
            n == chars@.len(),
            chars@ == command@,
            i <= n,
            i < n ==> tmp@ == scan_tokens(chars@.take(i as int)).1,
            i < n ==> tokens_view(vec@) == scan_tokens(chars@.take(i as int)).0,
            i == n ==> tokens_view(vec@) == lex_spec(chars@),
            words_lowercased_ascii(tokens_view(vec@)),
        decreases n - i,
    {
        let ch = chars[i];
        let ghost prefix = chars@.take(i as int);
        let ghost next = chars@.take(i + 1);
        assert(next.drop_last() =~= prefix);
        assert(next.last() == ch);
        let operator = ch == '+' || ch == '*' || ch == '/' || ch == '-';
        let separator = operator || ch == ' ';
        if !separator {
            push_char(&mut tmp, ch);
        }
        let at_end = i + 1 == n;
        if separator || at_end {
            if !tmp.as_str().is_empty() {
                let ghost before = vec@;
                let token_type = word_token_type(&tmp);
                vec.push(Box::new((tmp.clone(), token_type)));
                assert(tokens_view(vec@) =~= tokens_view(before).push((tmp@, word_type(tmp@))));
            }
            tmp = String::new();
        }
        if operator {
            let ghost before = vec@;
            let mut op = String::new();
            push_char(&mut op, ch);
            let op_type = operator_token_type(ch);
            vec.push(Box::new((op, op_type)));
            assert(op@ =~= seq![ch]);
            assert(tokens_view(vec@) =~= tokens_view(before).push((seq![ch], operator_type(ch))));
        }
        proof {
            if at_end {
                assert(next =~= chars@);
            }
        }
        i = i + 1;
    }
    proof {
        if n == 0 {
            assert(chars@ =~= Seq::<char>::empty());
            assert(tokens_view(vec@) =~= Seq::<(Seq<char>, LexType)>::empty());
        }
    }
    vec
}

/// A decimal digit.
pub open spec fn is_digit(c: char) -> bool {
    '0' <= c <= '9'
}

/// The value of the decimal digit `c`.
pub open spec fn digit_value(c: char) -> int {
    c as int - '0' as int
}

/// Every character of `s` is a decimal digit.
pub open spec fn all_digits(s: Seq<char>) -> bool {
    forall|i: int| 0 <= i < s.len() ==> is_digit(#[trigger] s[i])
}

/// The number that the decimal digits `s` spell (0 for no digits).
pub open spec fn digits_value(s: Seq<char>) -> int
    decreases s.len(),
{
    if s.len() == 0 {
        0
    } else {
        digits_value(s.drop_last()) * 10 + digit_value(s.last())
    }
}

/// What `str::parse::<u32>` gives for `s`: an optional `+`, then at least one
/// decimal digit and nothing else, of a value that fits in a `u32`.
pub open spec fn parse_u32_spec(s: Seq<char>) -> Option<u32> {
    let digits = if s.len() > 0 && s[0] == '+' {
        s.drop_first()
    } else {
        s
    };
    if digits.len() > 0 && all_digits(digits) && digits_value(digits) <= u32::MAX {
        Some(digits_value(digits) as u32)
    } else {
        None
    }
}

/// What `str::parse::<i32>` gives for `s`: an optional `+` or `-`, then at
/// least one decimal digit and nothing else, of a value that fits in an `i32`.
pub open spec fn parse_i32_spec(s: Seq<char>) -> Option<i32> {
    let negative = s.len() > 0 && s[0] == '-';
    let digits = if s.len() > 0 && (s[0] == '+' || s[0] == '-') {
        s.drop_first()
    } else {
        s
    };
    let value = if negative {
        -digits_value(digits)
    } else {
        digits_value(digits)
    };
    if digits.len() > 0 && all_digits(digits) && i32::MIN <= value <= i32::MAX {
        Some(value as i32)
    } else {
        None
    }
}

/// Extending a run of digits by more digits never makes its value smaller.
proof fn lemma_digits_value_grows(s: Seq<char>, i: int)
    requires
        0 <= i <= s.len(),
        all_digits(s),
    ensures
        digits_value(s.take(i)) <= digits_value(s),
        0 <= digits_value(s.take(i)),
    decreases s.len() - i,
{
    if i < s.len() {
        lemma_digits_value_grows(s, i + 1);
        assert(s.take(i + 1).drop_last() =~= s.take(i));
        assert(is_digit(s[i]));
    } else {
        assert(s.take(i) =~= s);
        lemma_digits_value_nonneg(s);
    }
}

proof fn lemma_digits_value_nonneg(s: Seq<char>)
    requires
        all_digits(s),
    ensures
        0 <= digits_value(s),
    decreases s.len(),
{
    if s.len() > 0 {
        assert(is_digit(s.last()));
        lemma_digits_value_nonneg(s.drop_last());
    }
}

/// The value of the digits `digits[start..]`, or `None` when one of them is
/// not a digit or the value exceeds `limit`.
fn digits_up_to(digits: &Vec<char>, start: usize, limit: u64) -> (value: Option<u64>)
    requires
        start <= digits@.len(),
        limit <= u32::MAX + 1,
    ensures
        ({
            let d = digits@.skip(start as int);
            match value {
                Some(v) => all_digits(d) && v == digits_value(d) && v <= limit,
                None => !(all_digits(d) && digits_value(d) <= limit),
            }
        }),
{
    let ghost d = digits@.skip(start as int);
    let mut acc: u64 = 0;
    let mut i: usize = start;
    while i < digits.len()
        invariant
            start <= i <= digits@.len(),
            limit <= u32::MAX + 1,
            d == digits@.skip(start as int),
            all_digits(d.take(i - start)),
            acc == digits_value(d.take(i - start)),
            acc <= limit,
        decreases digits@.len() - i,
    {
        let c = digits[i];
        assert(d.take(i - start + 1).drop_last() =~= d.take(i - start));
        assert(d[i - start] == c);
        if !('0' <= c && c <= '9') {
            proof {
                assert(!is_digit(d[i - start]));
            }
            return None;
        }
        let next = acc * 10 + (c as u64 - '0' as u64);
        assert(all_digits(d.take(i - start + 1)));
        if next > limit {
            proof {
                if all_digits(d) {
                    lemma_digits_value_grows(d, i - start + 1);
                }
            }
            return None;
        }
        acc = next;
        i = i + 1;
    }
    assert(d.take(i - start) =~= d);
    Some(acc)
}

/// Parses a `u32` as `str::parse::<u32>` does.
pub fn parse_u32(s: &str) -> (value: Option<u32>)
    ensures
        value == parse_u32_spec(s@),
{
    let chars = chars_of(s);
    let start: usize = if chars.len() > 0 && chars[0] == '+' {
        1
    } else {
        0
    };
    assert(chars@.skip(start as int) =~= (if chars@.len() > 0 && chars@[0] == '+' {
        chars@.drop_first()
    } else {
        chars@
    }));
    if start == chars.len() {
        return None;
    }
    match digits_up_to(&chars, start, 0xffff_ffff) {
        Some(v) => Some(v as u32),
        None => None,
    }
}

/// Parses an `i32` as `str::parse::<i32>` does.
pub fn parse_i32(s: &str) -> (value: Option<i32>)
    ensures
        value == parse_i32_spec(s@),
{
    let chars = chars_of(s);
    let negative = chars.len() > 0 && chars[0] == '-';
    let start: usize = if chars.len() > 0 && (chars[0] == '+' || chars[0] == '-') {
        1
    } else {
        0
    };
    let ghost digits = if s@.len() > 0 && (s@[0] == '+' || s@[0] == '-') {
        s@.drop_first()
    } else {
        s@
    };
    assert(chars@.skip(start as int) =~= digits);
    if start == chars.len() {
        return None;
    }
    let limit: u64 = if negative {
        0x8000_0000
    } else {
        0x7fff_ffff
    };
    match digits_up_to(&chars, start, limit) {
        Some(v) => {
            if negative {
                if v == 0x8000_0000 {
                    Some(-2147483648i32)
                } else {
                    Some(-(v as i32))
                }
            } else {
                Some(v as i32)
            }
        },
        None => None,
    }
}


/// What a command line asks the kernel to do.
#[derive(Debug, PartialEq, Eq)]
pub enum CommandAction {
    /// Print both operands on one line and their sum on the next.
    PrintSum { first: i32, second: i32, sum: i32 },
    /// Print the product.
    PrintProduct(i32),
    /// Print the quotient of the operands, taken as floating-point numbers.
    PrintQuotient { dividend: i32, divisor: i32 },
    /// Print the difference.
    PrintDifference(i32),
    /// Three or more tokens that are no arithmetic expression.
    PatternMismatch,
    /// Print the current directory sector.
    ShowCurrentDir(u32),
    /// List the directory stored in the given sector.
    ListDirectory(u32),
    /// Create a file named `name` (written `type.name`) in directory sector `dir`.
    CreateFile { name: String, dir: u32 },
    /// Overwrite the given sector with zeroes.
    ZeroSector(u32),
    /// Recognised, but nothing to do.
    NoAction,
    /// Write a fresh root directory to sector 0.
    CreateRoot,
    /// Print that the command is not valid.
    InvalidCommand,
}

/// A `CommandAction` as plain values.
pub enum ActionSpec {
    PrintSum { first: i32, second: i32, sum: i32 },
    PrintProduct(i32),
    PrintQuotient { dividend: i32, divisor: i32 },
    PrintDifference(i32),
    PatternMismatch,
    ShowCurrentDir(u32),
    ListDirectory(u32),
    CreateFile { name: Seq<char>, dir: u32 },
    ZeroSector(u32),
    NoAction,
    CreateRoot,
    InvalidCommand,
}

impl View for CommandAction {
    type V = ActionSpec;

    open spec fn view(&self) -> ActionSpec {
        match self {
            CommandAction::PrintSum { first, second, sum } => ActionSpec::PrintSum {
                first: *first,
                second: *second,
                sum: *sum,
            },
            CommandAction::PrintProduct(p) => ActionSpec::PrintProduct(*p),
            CommandAction::PrintQuotient { dividend, divisor } => ActionSpec::PrintQuotient {
                dividend: *dividend,
                divisor: *divisor,
            },
            CommandAction::PrintDifference(d) => ActionSpec::PrintDifference(*d),
            CommandAction::PatternMismatch => ActionSpec::PatternMismatch,
            CommandAction::ShowCurrentDir(d) => ActionSpec::ShowCurrentDir(*d),
            CommandAction::ListDirectory(d) => ActionSpec::ListDirectory(*d),
            CommandAction::CreateFile { name, dir } => ActionSpec::CreateFile {
                name: name@,
                dir: *dir,
            },
            CommandAction::ZeroSector(l) => ActionSpec::ZeroSector(*l),
            CommandAction::NoAction => ActionSpec::NoAction,
            CommandAction::CreateRoot => ActionSpec::CreateRoot,
            CommandAction::InvalidCommand => ActionSpec::InvalidCommand,
        }
    }
}

/// A parsed number, or 0 when the text is no number.
pub open spec fn i32_or_zero(s: Seq<char>) -> i32 {
    match parse_i32_spec(s) {
        Some(v) => v,
        None => 0,
    }
}

/// A parsed sector number, or 0 when the text is no number.
pub open spec fn u32_or_zero(s: Seq<char>) -> u32 {
    match parse_u32_spec(s) {
        Some(v) => v,
        None => 0,
    }
}

/// The action for three or more tokens: an arithmetic expression
/// `number op number`, or no pattern. `None` where the arithmetic overflows.
pub open spec fn arithmetic_action(t: Seq<(Seq<char>, LexType)>) -> Option<ActionSpec> {
    let n1 = i32_or_zero(t[0].0);
    let n2 = i32_or_zero(t[2].0);
    let numbers = t[0].1 == LexType::Number && t[2].1 == LexType::Number;
    if numbers && t[1].1 == LexType::Add {
        if i32::MIN <= n1 + n2 <= i32::MAX {
            Some(ActionSpec::PrintSum { first: n1, second: n2, sum: (n1 + n2) as i32 })
        } else {
            None
        }
    } else if numbers && t[1].1 == LexType::Mult {
        if i32::MIN <= n1 * n2 <= i32::MAX {
            Some(ActionSpec::PrintProduct((n1 * n2) as i32))
        } else {
            None
        }
    } else if numbers && t[1].1 == LexType::Div {
        Some(ActionSpec::PrintQuotient { dividend: n1, divisor: n2 })
    } else if numbers && t[1].1 == LexType::Sub {
        if i32::MIN <= n1 - n2 <= i32::MAX {
            Some(ActionSpec::PrintDifference((n1 - n2) as i32))
        } else {
            None
        }
    } else {
        Some(ActionSpec::PatternMismatch)
    }
}

/// The action for a token list, with `dir` the current directory sector.
/// `None` where the command cannot be carried out: no token at all, `cf`
/// without a name, or arithmetic that overflows an `i32`.
pub open spec fn command_action(t: Seq<(Seq<char>, LexType)>, dir: u32) -> Option<ActionSpec> {
    if t.len() >= 3 {
        arithmetic_action(t)
    } else if t.len() == 0 {
        None
    } else if t[0].1 == LexType::DirPointer {
        Some(ActionSpec::ShowCurrentDir(dir))
    } else if t[0].1 == LexType::Ls {
        if t.len() == 1 {
            Some(ActionSpec::ListDirectory(dir))
        } else {
            Some(ActionSpec::ListDirectory(u32_or_zero(t[1].0)))
        }
    } else if t[0].1 == LexType::CreateFile && t.len() == 1 {
        None
    } else if t[0].1 == LexType::CreateFile && t[1].1 == LexType::Stringy {
        Some(ActionSpec::CreateFile { name: t[1].0, dir })
    } else if t[0].1 == LexType::ZeroDir {
        if t.len() == 2 {
            Some(ActionSpec::ZeroSector(u32_or_zero(t[1].0)))
        } else {
            Some(ActionSpec::NoAction)
        }
    } else if t[0].1 == LexType::CreateRoot {
        Some(ActionSpec::CreateRoot)
    } else {
        Some(ActionSpec::InvalidCommand)
    }
}

/// Parses a number token as `parse::<i32>().unwrap_or(0)` does.
fn number_or_zero(s: &String) -> (v: i32)
    ensures
        v == i32_or_zero(s@),
{
    match parse_i32(s.as_str()) {
        Some(v) => v,
        None => 0,
    }
}

/// Parses a sector token as `parse::<u32>().unwrap_or(0)` does.
fn sector_or_zero(s: &String) -> (v: u32)
    ensures
        v == u32_or_zero(s@),
{
    match parse_u32(s.as_str()) {
        Some(v) => v,
        None => 0,
    }
}

/// Decides what a token list asks for, `current_dir` being the current
/// directory sector. Returns `None` exactly where the command cannot be
/// carried out (see `command_action`).
pub fn decide_command(tokens: &Vec<Box<(String, LexType)>>, current_dir: u32) -> (action: Option<
    CommandAction,
>)
    ensures
        match action {
            Some(a) => command_action(tokens_view(tokens@), current_dir) == Some(a@),
            None => command_action(tokens_view(tokens@), current_dir) is None,
        },
{
    let ghost t = tokens_view(tokens@);
    assert(t.len() == tokens@.len());
    assert(forall|i: int| 0 <= i < tokens@.len() ==> #[trigger] t[i] == token_view(tokens@[i]));
    if tokens.len() >= 3 {
        let t0 = &tokens[0];
        let t1 = &tokens[1];
        let t2 = &tokens[2];
        let numbers = t0.1 == LexType::Number && t2.1 == LexType::Number;
        if numbers && t1.1 == LexType::Add {
            let n1 = number_or_zero(&t0.0);
            let n2 = number_or_zero(&t2.0);
            match n1.checked_add(n2) {
                Some(sum) => Some(CommandAction::PrintSum { first: n1, second: n2, sum }),
                None => None,
            }
        } else if numbers && t1.1 == LexType::Mult {
            let n1 = number_or_zero(&t0.0);
            let n2 = number_or_zero(&t2.0);
            match n1.checked_mul(n2) {
                Some(p) => Some(CommandAction::PrintProduct(p)),
                None => None,
            }
        } else if numbers && t1.1 == LexType::Div {
            let n1 = number_or_zero(&t0.0);
            let n2 = number_or_zero(&t2.0);
            Some(CommandAction::PrintQuotient { dividend: n1, divisor: n2 })
        } else if numbers && t1.1 == LexType::Sub {
            let n1 = number_or_zero(&t0.0);
            let n2 = number_or_zero(&t2.0);
            match n1.checked_sub(n2) {
                Some(d) => Some(CommandAction::PrintDifference(d)),
                None => None,
            }
        } else {
            Some(CommandAction::PatternMismatch)
        }
    } else if tokens.len() == 0 {
        None
    } else if tokens[0].1 == LexType::DirPointer {
        Some(CommandAction::ShowCurrentDir(current_dir))
    } else if tokens[0].1 == LexType::Ls {
        if tokens.len() == 1 {
            Some(CommandAction::ListDirectory(current_dir))
        } else {
            Some(CommandAction::ListDirectory(sector_or_zero(&tokens[1].0)))
        }
    } else if tokens[0].1 == LexType::CreateFile && tokens.len() == 1 {
        None
    } else if tokens[0].1 == LexType::CreateFile && tokens[1].1 == LexType::Stringy {
        Some(CommandAction::CreateFile { name: tokens[1].0.clone(), dir: current_dir })
    } else if tokens[0].1 == LexType::ZeroDir {
        if tokens.len() == 2 {
            Some(CommandAction::ZeroSector(sector_or_zero(&tokens[1].0)))
        } else {
            Some(CommandAction::NoAction)
        }
    } else if tokens[0].1 == LexType::CreateRoot {
        Some(CommandAction::CreateRoot)
    } else {
        Some(CommandAction::InvalidCommand)
    }
}

/// Splits a command line into tokens and decides what it asks for,
/// `current_dir` being the current directory sector. `None` exactly where the
/// command cannot be carried out (see `command_action`).
pub fn handle_command(command: &str, current_dir: u32) -> (action: Option<CommandAction>)
    ensures
        words_lowercased_ascii(lex_spec(command@)),
        match action {
            Some(a) => command_action(lex_spec(command@), current_dir) == Some(a@),
            None => command_action(lex_spec(command@), current_dir) is None,
        },
{
    let tokens = lexer(command);
    decide_command(&tokens, current_dir)
}


/// Appending a finished word to `d + x` is appending it to `x`.
proof fn lemma_flush_word_prepend(d: Seq<(Seq<char>, LexType)>, x: Seq<(Seq<char>, LexType)>, cur: Seq<char>)
    ensures
        flush_word(d + x, cur) == d + flush_word(x, cur),
{
    if cur.len() > 0 {
        assert((d + x).push((cur, word_type(cur))) =~= d + x.push((cur, word_type(cur))));
    }
}

/// Once `p` has been read with no word pending, reading on through `b`
/// adds what reading `b` alone gives.
proof fn lemma_scan_tokens_after(p: Seq<char>, b: Seq<char>)
    requires
        scan_tokens(p).1.len() == 0,
    ensures
        scan_tokens(p + b) == (scan_tokens(p).0 + scan_tokens(b).0, scan_tokens(b).1),
    decreases b.len(),
{
    let d = scan_tokens(p).0;
    if b.len() == 0 {
        assert(p + b =~= p);
        assert(d + Seq::<(Seq<char>, LexType)>::empty() =~= d);
        assert(scan_tokens(p).1 =~= Seq::<char>::empty());
    } else {
        lemma_scan_tokens_after(p, b.drop_last());
        assert((p + b).drop_last() =~= p + b.drop_last());
        assert((p + b).last() == b.last());
        let (x, cur) = scan_tokens(b.drop_last());
        let c = b.last();
        lemma_flush_word_prepend(d, x, cur);
        if is_operator(c) {
            assert((d + flush_word(x, cur)).push((seq![c], operator_type(c))) =~= d + flush_word(
                x,
                cur,
            ).push((seq![c], operator_type(c))));
        }
    }
}

/// Lexing two command lines joined by a space gives the tokens of the
/// first, then those of the second: a space always ends a token and never
/// stands in one.
pub proof fn lemma_lex_space_join(a: Seq<char>, b: Seq<char>)
    ensures
        lex_spec(a + seq![' '] + b) == lex_spec(a) + lex_spec(b),
{
    let p = a + seq![' '];
    assert(p.drop_last() =~= a);
    assert(p.last() == ' ');
    assert(scan_tokens(p) == (lex_spec(a), Seq::<char>::empty()));
    lemma_scan_tokens_after(p, b);
    lemma_flush_word_prepend(lex_spec(a), scan_tokens(b).0, scan_tokens(b).1);
}

/// Reading characters that hold no separator leaves them all as the word
/// being read.
proof fn lemma_scan_no_separator(s: Seq<char>)
    requires
        forall|i: int| 0 <= i < s.len() ==> !is_separator(#[trigger] s[i]),
    ensures
        scan_tokens(s) == (Seq::<(Seq<char>, LexType)>::empty(), s),
    decreases s.len(),
{
    if s.len() > 0 {
        lemma_scan_no_separator(s.drop_last());
        assert(!is_separator(s[s.len() - 1]));
        assert(s.drop_last().push(s.last()) =~= s);
    }
}

/// A one-expression command line `number op number` (digits, one of
/// `+ - * /`, digits) lexes to a number, an operator and a number, and asks
/// for that arithmetic.
pub proof fn lemma_one_expression(x: Seq<char>, op: char, y: Seq<char>, dir: u32)
    requires
        x.len() > 0,
        y.len() > 0,
        all_digits(x),
        all_digits(y),
        is_operator(op),
    ensures
        lex_spec(x.push(op) + y) == seq![
            (x, LexType::Number),
            (seq![op], operator_type(op)),
            (y, LexType::Number),
        ],
        command_action(lex_spec(x.push(op) + y), dir) == arithmetic_action(
            lex_spec(x.push(op) + y),
        ),
{
    assert forall|i: int| 0 <= i < x.len() implies !is_separator(#[trigger] x[i]) by {
        assert(is_digit(x[i]));
    }
    assert forall|i: int| 0 <= i < y.len() implies !is_separator(#[trigger] y[i]) by {
        assert(is_digit(y[i]));
    }
    lemma_scan_no_separator(x);
    lemma_scan_no_separator(y);
    let p = x.push(op);
    assert(p.drop_last() =~= x);
    let d = seq![(x, LexType::Number), (seq![op], operator_type(op))];
    assert(scan_tokens(p).0 =~= d);
    lemma_scan_tokens_after(p, y);
    assert(d + Seq::<(Seq<char>, LexType)>::empty() =~= d);
    assert(d.push((y, LexType::Number)) =~= seq![
        (x, LexType::Number),
        (seq![op], operator_type(op)),
        (y, LexType::Number),
    ]);
}

/// Every token has text; an operator token is the operator alone, and every
/// other token is a word free of separators.
pub proof fn lemma_tokens_are_clean(s: Seq<char>)
    ensures
        forall|i: int| 0 <= i < lex_spec(s).len() ==> (#[trigger] lex_spec(s)[i]).0.len() > 0,
        forall|i: int|
            0 <= i < lex_spec(s).len() && is_operator_type((#[trigger] lex_spec(s)[i]).1) ==> {
                &&& lex_spec(s)[i].0.len() == 1
                &&& is_operator(lex_spec(s)[i].0[0])
                &&& lex_spec(s)[i].1 == operator_type(lex_spec(s)[i].0[0])
            },
        forall|i: int, j: int|
            0 <= i < lex_spec(s).len() && !is_operator_type(lex_spec(s)[i].1) && 0 <= j
                < lex_spec(s)[i].0.len() ==> !is_separator(#[trigger] lex_spec(s)[i].0[j]),
{
    lemma_scan_clean(s);
    let (d, c) = scan_tokens(s);
    assert forall|j: int| 0 <= j < c.len() implies !is_separator(#[trigger] c[j]) by {}
    if c.len() > 0 {
        assert(lex_spec(s) == d.push((c, word_type(c))));
        assert forall|i: int| 0 <= i < lex_spec(s).len() implies (#[trigger] lex_spec(s)[i]) == if i
            < d.len() {
            d[i]
        } else {
            (c, word_type(c))
        } by {}
        lemma_word_type_not_operator(c);
    }
}

/// A word's type is never an operator type.
proof fn lemma_word_type_not_operator(w: Seq<char>)
    ensures
        !is_operator_type(word_type(w)),
{
}

/// What `lemma_tokens_are_clean` states, for the finished tokens and the
/// word being read.
proof fn lemma_scan_clean(s: Seq<char>)
    ensures
        forall|j: int| 0 <= j < scan_tokens(s).1.len() ==> !is_separator(#[trigger] scan_tokens(s).1[j]),
        forall|i: int| 0 <= i < scan_tokens(s).0.len() ==> (#[trigger] scan_tokens(s).0[i]).0.len() > 0,
        forall|i: int|
            0 <= i < scan_tokens(s).0.len() && is_operator_type((#[trigger] scan_tokens(s).0[i]).1)
                ==> {
                &&& scan_tokens(s).0[i].0.len() == 1
                &&& is_operator(scan_tokens(s).0[i].0[0])
                &&& scan_tokens(s).0[i].1 == operator_type(scan_tokens(s).0[i].0[0])
            },
        forall|i: int, j: int|
            0 <= i < scan_tokens(s).0.len() && !is_operator_type(scan_tokens(s).0[i].1) && 0 <= j
                < scan_tokens(s).0[i].0.len() ==> !is_separator(#[trigger] scan_tokens(s).0[i].0[j]),
    decreases s.len(),
{
    if s.len() > 0 {
        let p = s.drop_last();
        lemma_scan_clean(p);
        let (d, cur) = scan_tokens(p);
        let c = s.last();
        if cur.len() > 0 {
            lemma_word_type_not_operator(cur);
        }
        let f = flush_word(d, cur);
        assert forall|i: int| 0 <= i < f.len() implies (#[trigger] f[i]) == if i < d.len() {
            d[i]
        } else {
            (cur, word_type(cur))
        } by {}
        if is_operator(c) {
            let t = f.push((seq![c], operator_type(c)));
            assert(t == scan_tokens(s).0);
            assert forall|i: int| 0 <= i < t.len() implies (#[trigger] t[i]) == if i < f.len() {
                f[i]
            } else {
                (seq![c], operator_type(c))
            } by {}
        } else if c == ' ' {
        } else {
            assert forall|j: int| 0 <= j < cur.push(c).len() implies !is_separator(
                #[trigger] cur.push(c)[j],
            ) by {
                if j < cur.len() {
                    assert(cur.push(c)[j] == cur[j]);
                }
            }
        }
    }
}

/// A run of decimal digits whose value fits in an `i32` parses to that value.
pub proof fn lemma_digits_parse(x: Seq<char>)
    requires
        x.len() > 0,
        all_digits(x),
        digits_value(x) <= i32::MAX,
    ensures
        parse_i32_spec(x) == Some(digits_value(x) as i32),
        i32_or_zero(x) == digits_value(x),
{
    lemma_digits_value_nonneg(x);
    assert(is_digit(x[0]));
}

/// What each arithmetic operator does to two number tokens: `+` adds, `-`
/// subtracts the second from the first (negative when the second is
/// larger), `*` multiplies, `/` passes both operands on for division; a
/// sum, difference or product that does not fit in an `i32` gives `None`.
pub proof fn lemma_arithmetic_meaning(x: Seq<char>, o: Seq<char>, y: Seq<char>, op: LexType)
    ensures
        ({
            let a = i32_or_zero(x);
            let b = i32_or_zero(y);
            let t = seq![(x, LexType::Number), (o, op), (y, LexType::Number)];
            &&& op == LexType::Add ==> arithmetic_action(t) == if a + b <= i32::MAX && a + b
                >= i32::MIN {
                Some(ActionSpec::PrintSum { first: a, second: b, sum: (a + b) as i32 })
            } else {
                None
            }
            &&& op == LexType::Sub ==> arithmetic_action(t) == if a - b <= i32::MAX && a - b
                >= i32::MIN {
                Some(ActionSpec::PrintDifference((a - b) as i32))
            } else {
                None
            }
            &&& op == LexType::Mult ==> arithmetic_action(t) == if a * b <= i32::MAX && a * b
                >= i32::MIN {
                Some(ActionSpec::PrintProduct((a * b) as i32))
            } else {
                None
            }
            &&& op == LexType::Div ==> arithmetic_action(t) == Some(
                ActionSpec::PrintQuotient { dividend: a, divisor: b },
            )
        }),
{
}

/// A one-expression command line `x op y` of decimal numbers that fit in an
/// `i32` asks for the arithmetic on the numbers they spell: for `-` the
/// difference `x - y`, which added to `y` gives back `x`; for `+` the sum,
/// which minus `y` gives back `x`; for `*` the product; for `/` both
/// operands.
pub proof fn lemma_command_arithmetic(x: Seq<char>, op: char, y: Seq<char>, dir: u32)
    requires
        x.len() > 0,
        y.len() > 0,
        all_digits(x),
        all_digits(y),
        digits_value(x) <= i32::MAX,
        digits_value(y) <= i32::MAX,
        is_operator(op),
    ensures
        ({
            let a = digits_value(x);
            let b = digits_value(y);
            let action = command_action(lex_spec(x.push(op) + y), dir);
            &&& op == '-' ==> action == Some(ActionSpec::PrintDifference((a - b) as i32))
            &&& op == '-' ==> (action matches Some(ActionSpec::PrintDifference(d)) && d + b == a)
            &&& op == '+' ==> (a + b <= i32::MAX ==> action == Some(
                ActionSpec::PrintSum { first: a as i32, second: b as i32, sum: (a + b) as i32 },
            ))
            &&& op == '+' ==> (a + b > i32::MAX ==> action is None)
            &&& op == '+' ==> (action matches Some(ActionSpec::PrintSum { first, second, sum })
                ==> sum - second == a && first == a && second == b)
            &&& op == '*' ==> (a * b <= i32::MAX ==> action == Some(
                ActionSpec::PrintProduct((a * b) as i32),
            ))
            &&& op == '*' ==> (a * b > i32::MAX ==> action is None)
            &&& op == '/' ==> action == Some(
                ActionSpec::PrintQuotient { dividend: a as i32, divisor: b as i32 },
            )
        }),
{
    lemma_one_expression(x, op, y, dir);
    lemma_digits_parse(x);
    lemma_digits_parse(y);
    lemma_digits_value_nonneg(x);
    lemma_digits_value_nonneg(y);
    let a = digits_value(x);
    let b = digits_value(y);
    assert(a * b >= 0) by (nonlinear_arith)
        requires
            a >= 0,
            b >= 0,
    ;
    lemma_arithmetic_meaning(x, seq![op], y, operator_type(op));
}

/// How numbers are read: decimal digits spell their value, an optional
/// leading `+` changes nothing, a leading `-` negates for an `i32` and is
/// refused for a `u32`, and a string with a character that is no digit
/// (after the sign) or with no digit at all is no number.
pub proof fn lemma_number_reading(x: Seq<char>)
    requires
        x.len() > 0,
        all_digits(x),
    ensures
        digits_value(x) <= u32::MAX ==> parse_u32_spec(x) == Some(digits_value(x) as u32),
        digits_value(x) <= u32::MAX ==> parse_u32_spec(seq!['+'] + x) == Some(
            digits_value(x) as u32,
        ),
        parse_u32_spec(seq!['-'] + x) is None,
        digits_value(x) <= i32::MAX ==> parse_i32_spec(seq!['+'] + x) == Some(
            digits_value(x) as i32,
        ),
        digits_value(x) <= i32::MAX + 1 ==> parse_i32_spec(seq!['-'] + x) == Some(
            (-digits_value(x)) as i32,
        ),
        digits_value(x) > u32::MAX ==> parse_u32_spec(x) is None,
        forall|c: char| !is_digit(c) && c != '+' && c != '-' ==> parse_u32_spec(seq![c] + x) is None
            && parse_i32_spec(seq![c] + x) is None,
        parse_u32_spec(Seq::empty()) is None,
        parse_i32_spec(Seq::empty()) is None,
        parse_i32_spec(seq!['-']) is None,
{
    lemma_digits_value_nonneg(x);
    assert(is_digit(x[0]));
    assert((seq!['+'] + x).drop_first() =~= x);
    assert((seq!['-'] + x).drop_first() =~= x);
    assert((seq!['-'] + x)[0] == '-');
    assert(!is_digit((seq!['-'] + x)[0]));
    assert forall|c: char| !is_digit(c) && c != '+' && c != '-' implies parse_u32_spec(seq![c] + x)
        is None && parse_i32_spec(seq![c] + x) is None by {
        assert((seq![c] + x)[0] == c);
    }
    assert(seq!['-'].drop_first() =~= Seq::<char>::empty());
}

/// The six command keywords, recognised in any ASCII case: a word of ASCII
/// characters that is not all digits, whose lower-casing is its ASCII
/// lower-casing (as `lexer` and `handle_command` guarantee for their words),
/// is `dirpointer`, `ls`, `cdir`, `zb`, `cr` or `cf` in some case exactly
/// when it is typed as that keyword, and `Stringy` when it is none of them.
pub proof fn lemma_keywords(w: Seq<char>)
    requires
        !all_digits(w),
        lowercase(w) == ascii_lowercase(w),
    ensures
        (word_type(w) == LexType::DirPointer) == (ascii_lowercase(w) == seq![
            'd',
            'i',
            'r',
            'p',
            'o',
            'i',
            'n',
            't',
            'e',
            'r',
        ]),
        (word_type(w) == LexType::Ls) == (ascii_lowercase(w) == seq!['l', 's']),
        (word_type(w) == LexType::CreateDir) == (ascii_lowercase(w) == seq!['c', 'd', 'i', 'r']),
        (word_type(w) == LexType::ZeroDir) == (ascii_lowercase(w) == seq!['z', 'b']),
        (word_type(w) == LexType::CreateRoot) == (ascii_lowercase(w) == seq!['c', 'r']),
        (word_type(w) == LexType::CreateFile) == (ascii_lowercase(w) == seq!['c', 'f']),
        (word_type(w) == LexType::Stringy) == !(ascii_lowercase(w) == seq![
            'd',
            'i',
            'r',
            'p',
            'o',
            'i',
            'n',
            't',
            'e',
            'r',
        ] || ascii_lowercase(w) == seq!['l', 's'] || ascii_lowercase(w) == seq!['c', 'd', 'i', 'r']
            || ascii_lowercase(w) == seq!['z', 'b'] || ascii_lowercase(w) == seq!['c', 'r']
            || ascii_lowercase(w) == seq!['c', 'f']),
{
    assert(seq!['l', 's'] != seq!['z', 'b']) by {
        assert(seq!['l', 's'][0] != seq!['z', 'b'][0]);
    }
    assert(seq!['l', 's'] != seq!['c', 'r']) by {
        assert(seq!['l', 's'][0] != seq!['c', 'r'][0]);
    }
    assert(seq!['l', 's'] != seq!['c', 'f']) by {
        assert(seq!['l', 's'][0] != seq!['c', 'f'][0]);
    }
    assert(seq!['z', 'b'] != seq!['c', 'r']) by {
        assert(seq!['z', 'b'][0] != seq!['c', 'r'][0]);
    }
    assert(seq!['z', 'b'] != seq!['c', 'f']) by {
        assert(seq!['z', 'b'][0] != seq!['c', 'f'][0]);
    }
    assert(seq!['c', 'r'] != seq!['c', 'f']) by {
        assert(seq!['c', 'r'][1] != seq!['c', 'f'][1]);
    }
}

} // verus!
