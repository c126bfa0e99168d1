use vstd::prelude::*;

use crate::text::{chars_of, decimal, is_white_space, is_whitespace, push_decimal, trim, trim_bounds};
use crate::types::{Config, ConfigResult};

verus! {

broadcast use vstd::string::group_string_axioms;

/// One line of a configuration file, or one protocol command, once parsed.
#[derive(Debug, PartialEq, Eq, Clone)]
pub enum ConfigLineType {
    /// A line holding nothing but white space (the line as given).
    Whitespace(String),
    /// A line whose first non-blank character is `#` (the line as given).
    Comment(String),
    /// A line of tokens.
    Tokens(Vec<String>),
}

/// The state of the tokenizer between two characters.
#[derive(Debug, PartialEq, Eq, Structural, Clone, Copy)]
pub enum ParseMode {
    /// Between tokens.
    ExpectToken,
    /// Inside a token.
    Token,
}

/// Why a line is refused.
#[derive(Debug, PartialEq, Eq, Structural, Clone, Copy)]
pub enum LineError {
    /// A token starts with a backslash.
    InvalidLine,
    /// A quote stands inside a token that was not opened by a quote.
    UnexpectedQuote,
    /// The line ends inside a quoted token.
    OpenQuote,
}

/// The message that the parser gives for each kind of refusal.
pub open spec fn line_error_text(e: LineError) -> Seq<char> {
    match e {
        LineError::InvalidLine => "invalid line"@,
        LineError::UnexpectedQuote => "quote opened unexpectedly"@,
        LineError::OpenQuote => "open quote"@,
    }
}

/// A parsed line, in terms of character sequences.
pub enum LineView {
    /// A blank line, as given.
    Whitespace(Seq<char>),
    /// A comment line, as given.
    Comment(Seq<char>),
    /// The tokens of a line.
    Tokens(Seq<Seq<char>>),
}

/// The tokenizer's state after some prefix of a trimmed line.
pub struct ScanState {
    /// Whether the tokenizer is inside a token.
    pub mode: ParseMode,
    /// Whether a token has been opened by a quote so far on this line.
    pub quoted: bool,
    /// Whether the last character was a backslash that escapes the next one.
    pub escaping: bool,
    /// The text of the current token so far.
    pub token: Seq<char>,
    /// The tokens completed so far.
    pub tokens: Seq<Seq<char>>,
}

/// The tokenizer's state before the first character: between tokens, no token read.
pub open spec fn scan_start() -> ScanState {
    ScanState {
        mode: ParseMode::ExpectToken,
        quoted: false,
        escaping: false,
        token: seq![],
        tokens: seq![],
    }
}

/// The character that an escape sequence `\c` stands for: `\n` a newline,
/// `\t` a tab, `\r` a carriage return, and any other `c` (a quote, a
/// backslash) itself.
pub open spec fn unescape(c: char) -> char {
    if c == 'n' {
        '\n'
    } else if c == 't' {
        '\t'
    } else if c == 'r' {
        '\r'
    } else {
        c
    }
}

} // verus!

verus! {

/// One step of the tokenizer: the state after character `i` of the trimmed line `t`.
/// Inside a token opened by a quote, a backslash escapes the next character.
pub open spec fn scan_step(t: Seq<char>, st: ScanState, i: int) -> Result<ScanState, LineError> {
    let c = t[i];
    match st.mode {
        ParseMode::ExpectToken => {
            if c == '"' {
                Ok(
                    ScanState {
                        mode: ParseMode::Token,
                        quoted: true,
                        escaping: false,
                        token: seq![],
                        ..st
                    },
                )
            } else if is_white_space(c) {
                Ok(st)
            } else if c != '\\' {
                Ok(ScanState { mode: ParseMode::Token, escaping: false, token: seq![c], ..st })
            } else {
                Err(LineError::InvalidLine)
            }
        },
        ParseMode::Token => {
            if st.escaping {
                Ok(ScanState { escaping: false, token: st.token.push(unescape(c)), ..st })
            } else if c == '"' {
                if !st.quoted {
                    Err(LineError::UnexpectedQuote)
                } else {
                    Ok(
                        ScanState {
                            mode: ParseMode::ExpectToken,
                            tokens: st.tokens.push(st.token),
                            ..st
                        },
                    )
                }
            } else if c == '\\' && st.quoted {
                Ok(ScanState { escaping: true, ..st })
            } else if is_white_space(c) && !st.quoted {
                Ok(ScanState { mode: ParseMode::ExpectToken, tokens: st.tokens.push(st.token), ..st })
            } else {
                Ok(ScanState { token: st.token.push(c), ..st })
            }
        },
    }
}

/// The tokenizer's state after the first `n` characters of the trimmed line `t`.
pub open spec fn scan(t: Seq<char>, n: nat) -> Result<ScanState, LineError>
    decreases n,
{
    if n == 0 {
        Ok(scan_start())
    } else {
        match scan(t, (n - 1) as nat) {
            Ok(st) => scan_step(t, st, n - 1),
            Err(e) => Err(e),
        }
    }
}

/// The tokens of the trimmed line `t`, or why it is refused.
pub open spec fn tokenize(t: Seq<char>) -> Result<Seq<Seq<char>>, LineError> {
    match scan(t, t.len()) {
        Err(e) => Err(e),
        Ok(st) => {
            if st.mode == ParseMode::Token && st.quoted {
                Err(LineError::OpenQuote)
            } else if st.mode == ParseMode::Token {
                Ok(st.tokens.push(st.token))
            } else {
                Ok(st.tokens)
            }
        },
    }
}

/// What `parse_config_line` gives for `line`.
pub open spec fn spec_parse_config_line(line: Seq<char>) -> Result<LineView, LineError> {
    let t = trim(line);
    if t.len() == 0 {
        Ok(LineView::Whitespace(line))
    } else if t[0] == '#' {
        Ok(LineView::Comment(line))
    } else {
        match tokenize(t) {
            Ok(tokens) => Ok(LineView::Tokens(tokens)),
            Err(e) => Err(e),
        }
    }
}

/// The texts of a vector of strings.
pub open spec fn texts(v: Seq<String>) -> Seq<Seq<char>> {
    v.map_values(|s: String| s@)
}

impl View for ConfigLineType {
    type V = LineView;

    open spec fn view(&self) -> LineView {
        match self {
            ConfigLineType::Whitespace(s) => LineView::Whitespace(s@),
            ConfigLineType::Comment(s) => LineView::Comment(s@),
            ConfigLineType::Tokens(v) => LineView::Tokens(texts(v@)),
        }
    }
}

/// Once the tokenizer has refused a prefix, it refuses every longer prefix.
proof fn lemma_scan_error_sticks(t: Seq<char>, k: nat, n: nat)
    requires
        k <= n,
        scan(t, k) is Err,
    ensures
        scan(t, n) == scan(t, k),
    decreases n - k,
{
    if k < n {
        lemma_scan_error_sticks(t, k, (n - 1) as nat);
    }
}

/// Appends to `token` the character that the escape sequence `\c` stands
/// for, where `c` is character `i` of `text`.
fn push_unescaped(token: &mut String, c: char, text: &str, i: usize)
    requires
        i < text@.len(),
        i < usize::MAX,
        text@[i as int] == c,
    ensures
        final(token)@ == old(token)@.push(unescape(c)),
{
    proof {
        reveal_strlit("\n");
        reveal_strlit("\t");
        reveal_strlit("\r");
    }
    if c == 'n' {
        token.append("\n");
    } else if c == 't' {
        token.append("\t");
    } else if c == 'r' {
        token.append("\r");
    } else {
        token.append(text.substring_char(i, i + 1));
    }
    assert(token@ =~= old(token)@.push(unescape(c)));
}

/// The message for a refusal.
fn line_error_message(e: LineError) -> (r: String)
    ensures
        r@ == line_error_text(e),
{
    match e {
        LineError::InvalidLine => String::from_str("invalid line"),
        LineError::UnexpectedQuote => String::from_str("quote opened unexpectedly"),
        LineError::OpenQuote => String::from_str("open quote"),
    }
}

/// Parses one line of a configuration file. A line is one of:
///
/// ```text
/// #comment
/// key value
/// key "value"
/// key " \"valu\n e "
/// command with many "parameters"
/// ```
///
/// A line of white space gives `Whitespace`, a line whose first non-blank
/// character is `#` gives `Comment`, both holding the line as given. Any other
/// line is split into tokens at white space; a token opened by a quote runs to
/// the next unescaped quote and may hold white space. Inside it a backslash
/// escapes the next character: `\"` is a quote, `\\` a backslash, `\n` a
/// newline, `\t` a tab and `\r` a carriage return.
pub fn parse_config_line(line: String) -> (r: Result<ConfigLineType, String>)
    ensures
        match r {
            Ok(v) => spec_parse_config_line(line@) == Ok::<LineView, LineError>(v@),
            Err(msg) => exists|e: LineError|
                spec_parse_config_line(line@) == Err::<LineView, LineError>(e) && msg@
                    == line_error_text(e),
        },
{
    let all = chars_of(line.as_str());
    let (a, b) = trim_bounds(&all);
    let ghost t = trim(line@);
    if a == b {
        return Ok(ConfigLineType::Whitespace(line.clone()));
    }
    if all[a] == '#' {
        return Ok(ConfigLineType::Comment(line.clone()));
    }
    let trimmed = line.as_str().substring_char(a, b);
    assert(trimmed@ == t);
    let n: usize = b - a;
    assert(t[0] == all@[a as int]);
    let mut mode = ParseMode::ExpectToken;
    let mut quoted = false;
    let mut escaping = false;
    let mut token = String::new();
    let mut seg: usize = 0;
    let mut tokens: Vec<String> = Vec::new();
    let mut i: usize = 0;
    assert(texts(tokens@) =~= Seq::<Seq<char>>::empty());
    while i < n
        invariant
            a <= b <= all@.len(),
            all@ == line@,
            t == all@.subrange(a as int, b as int),
            trimmed@ == t,
            n == b - a,
            t.len() == n,
            n > 0,
            t[0] != '#',
            t == trim(line@),
            i <= n,
            seg <= i,
            scan(t, i as nat) is Ok,
            scan(t, i as nat)->Ok_0.mode == mode,
            scan(t, i as nat)->Ok_0.quoted == quoted,
            scan(t, i as nat)->Ok_0.escaping == escaping,
            scan(t, i as nat)->Ok_0.tokens == texts(tokens@),
            mode == ParseMode::Token ==> scan(t, i as nat)->Ok_0.token == token@ + t.subrange(
                seg as int,
                i as int,
            ),
            escaping ==> seg == i && mode == ParseMode::Token,
        decreases n - i,
    {
        let c = all[a + i];
        assert(c == t[i as int]);
        let ghost before = scan(t, i as nat)->Ok_0;
        if mode == ParseMode::ExpectToken {
            if c == '"' {
                mode = ParseMode::Token;
                quoted = true;
                token = String::new();
                seg = i + 1;
            } else if is_whitespace(c) {
            } else if c != '\\' {
                mode = ParseMode::Token;
                token = String::new();
                seg = i;
                assert(t.subrange(i as int, i + 1) =~= seq![c]);
            } else {
                proof {
                    assert(scan(t, (i + 1) as nat) == scan_step(t, before, i as int));
                    lemma_scan_error_sticks(t, (i + 1) as nat, t.len());
                    assert(spec_parse_config_line(line@) == Err::<LineView, LineError>(LineError::InvalidLine));
                }
                return Err(line_error_message(LineError::InvalidLine));
            }
        } else if escaping {
            let ghost old_token = token@;
            push_unescaped(&mut token, c, trimmed, i);
            assert(token@ + t.subrange(i + 1, i + 1) =~= old_token + t.subrange(
                seg as int,
                i as int,
            ).push(unescape(c)));
            escaping = false;
            seg = i + 1;
        } else if c == '"' {
            if !quoted {
                proof {
                    assert(scan(t, (i + 1) as nat) == scan_step(t, before, i as int));
                    lemma_scan_error_sticks(t, (i + 1) as nat, t.len());
                    assert(spec_parse_config_line(line@) == Err::<LineView, LineError>(LineError::UnexpectedQuote));
                }
                return Err(line_error_message(LineError::UnexpectedQuote));
            }
            token.append(trimmed.substring_char(seg, i));
            let done = token;
            tokens.push(done);
            assert(texts(tokens@) =~= before.tokens.push(before.token));
            token = String::new();
            mode = ParseMode::ExpectToken;
        } else if c == '\\' && quoted {
            let ghost old_token = token@;
            token.append(trimmed.substring_char(seg, i));
            assert(token@ + t.subrange(i + 1, i + 1) =~= old_token + t.subrange(
                seg as int,
                i as int,
            ));
            seg = i + 1;
            escaping = true;
        } else if is_whitespace(c) && !quoted {
            token.append(trimmed.substring_char(seg, i));
            let done = token;
            tokens.push(done);
            assert(texts(tokens@) =~= before.tokens.push(before.token));
            token = String::new();
            mode = ParseMode::ExpectToken;
        } else {
            assert(token@ + t.subrange(seg as int, i + 1) =~= (token@ + t.subrange(
                seg as int,
                i as int,
            )).push(c));
        }
        i = i + 1;
        assert(scan(t, i as nat) == scan_step(t, before, (i - 1) as int));
    }
    if mode == ParseMode::Token && quoted {
        return Err(line_error_message(LineError::OpenQuote));
    }
    if mode == ParseMode::Token {
        let ghost before = scan(t, n as nat)->Ok_0;
        token.append(trimmed.substring_char(seg, n));
        let done = token;
        tokens.push(done);
        assert(texts(tokens@) =~= before.tokens.push(before.token));
    }
    Ok(ConfigLineType::Tokens(tokens))
}

} // verus!

verus! {

/// The pieces of `s` between the occurrences of `sep`, as `str::split` gives
/// them: `n` separators give `n + 1` pieces, empty ones included.
pub open spec fn split_on(s: Seq<char>, sep: char) -> Seq<Seq<char>>
    decreases s.len(),
{
    if s.len() == 0 {
        seq![Seq::<char>::empty()]
    } else {
        let pieces = split_on(s.drop_last(), sep);
        if s.last() == sep {
            pieces.push(Seq::<char>::empty())
        } else {
            pieces.update(pieces.len() - 1, pieces.last().push(s.last()))
        }
    }
}

/// The pieces joined back together, with `sep` between each two.
pub open spec fn join_with(pieces: Seq<Seq<char>>, sep: char) -> Seq<char>
    decreases pieces.len(),
{
    if pieces.len() == 0 {
        Seq::<char>::empty()
    } else if pieces.len() == 1 {
        pieces[0]
    } else {
        join_with(pieces.drop_last(), sep).push(sep) + pieces.last()
    }
}

/// `split_on` always gives at least one piece.
pub proof fn lemma_split_on_nonempty(s: Seq<char>, sep: char)
    ensures
        split_on(s, sep).len() >= 1,
    decreases s.len(),
{
    if s.len() > 0 {
        lemma_split_on_nonempty(s.drop_last(), sep);
    }
}

/// Reads a configuration held in an environment variable: a `;`-separated
/// list of configuration lines.
pub fn read_env_var_config(value: String) -> (lines: Vec<String>)
    ensures
        texts(lines@) == split_on(value@, ';'),
{
    let cs = chars_of(value.as_str());
    let n: usize = cs.len();
    let mut lines: Vec<String> = Vec::new();
    let mut start: usize = 0;
    let mut i: usize = 0;
    assert(value@.take(0) =~= Seq::<char>::empty());
    assert(texts(lines@).push(value@.subrange(0, 0)) =~= split_on(value@.take(0), ';'));
    while i < n
        invariant
            cs@ == value@,
            n == cs@.len(),
            start <= i <= n,
            texts(lines@).push(value@.subrange(start as int, i as int)) == split_on(
                value@.take(i as int),
                ';',
            ),
        decreases n - i,
    {
        let ghost prefix = value@.take(i + 1);
        assert(prefix.drop_last() =~= value@.take(i as int));
        assert(prefix.last() == cs@[i as int]);
        if cs[i] == ';' {
            let ghost before = texts(lines@);
            let piece = value.as_str().substring_char(start, i).to_owned();
            lines.push(piece);
            assert(texts(lines@) =~= before.push(value@.subrange(start as int, i as int)));
            start = i + 1;
            assert(split_on(prefix, ';') == split_on(prefix.drop_last(), ';').push(
                Seq::<char>::empty(),
            ));
            assert(value@.subrange(start as int, i + 1) =~= Seq::<char>::empty());
            assert(texts(lines@).push(value@.subrange(start as int, i + 1)) =~= split_on(
                prefix,
                ';',
            ));
        } else {
            assert(value@.subrange(start as int, i + 1) =~= value@.subrange(
                start as int,
                i as int,
            ).push(cs@[i as int]));
            assert(texts(lines@).push(value@.subrange(start as int, i + 1)) =~= split_on(
                prefix,
                ';',
            ));
        }
        i = i + 1;
    }
    let ghost before = texts(lines@);
    let piece = value.as_str().substring_char(start, n).to_owned();
    lines.push(piece);
    assert(texts(lines@) =~= before.push(value@.subrange(start as int, n as int)));
    assert(value@.take(n as int) =~= value@);
    lines
}

} // verus!

verus! {

/// The message for a refused configuration line: which line (counting from 0) and why.
pub open spec fn line_fault_text(idx: nat, why: Seq<char>) -> Seq<char> {
    "error in line "@ + decimal(idx) + ": "@ + why
}

/// The options that the first `n` lines set, or the message for the first
/// of them that is refused. A line of two tokens sets its first token to its
/// second, a later line overriding an earlier one; blank and comment lines set
/// nothing; a line of any other number of tokens is refused.
pub open spec fn load_lines(lines: Seq<Seq<char>>, n: nat) -> Result<
    Map<Seq<char>, Seq<char>>,
    Seq<char>,
>
    decreases n,
{
    if n == 0 {
        Ok(Map::empty())
    } else {
        match load_lines(lines, (n - 1) as nat) {
            Err(e) => Err(e),
            Ok(m) => match spec_parse_config_line(lines[n - 1]) {
                Ok(LineView::Tokens(ts)) => {
                    if ts.len() == 2 {
                        Ok(m.insert(ts[0], ts[1]))
                    } else {
                        Err(line_fault_text((n - 1) as nat, "to many tokens"@))
                    }
                },
                Ok(_) => Ok(m),
                Err(e) => Err(line_fault_text((n - 1) as nat, line_error_text(e))),
            },
        }
    }
}

/// What `parse_config_lines` gives for `lines`.
pub open spec fn spec_parse_config_lines(lines: Seq<Seq<char>>) -> Result<
    Map<Seq<char>, Seq<char>>,
    Seq<char>,
> {
    load_lines(lines, lines.len())
}

proof fn lemma_load_error_sticks(lines: Seq<Seq<char>>, k: nat, n: nat)
    requires
        k <= n,
        load_lines(lines, k) is Err,
    ensures
        load_lines(lines, n) == load_lines(lines, k),
    decreases n - k,
{
    if k < n {
        lemma_load_error_sticks(lines, k, (n - 1) as nat);
    }
}

/// The message for a refused line number `idx`.
fn line_fault_message(idx: usize, why: &str) -> (r: String)
    ensures
        r@ == line_fault_text(idx as nat, why@),
{
    let mut r = String::from_str("error in line ");
    push_decimal(&mut r, idx);
    r.append(": ");
    r.append(why);
    proof {
        reveal_strlit("error in line ");
        reveal_strlit(": ");
    }
    assert(r@ =~= line_fault_text(idx as nat, why@));
    r
}

/// Reads the options that configuration lines set. A line of two tokens sets
/// the first to the second; blank and comment lines are skipped. The first line
/// that does not parse, or that holds another number of tokens, is reported
/// with its number (counting from 0).
pub fn parse_config_lines(lines: Vec<String>) -> (r: ConfigResult)
    ensures
        match r {
            Ok(c) => spec_parse_config_lines(texts(lines@)) == Ok::<
                Map<Seq<char>, Seq<char>>,
                Seq<char>,
            >(c@),
            Err(msg) => spec_parse_config_lines(texts(lines@)) == Err::<
                Map<Seq<char>, Seq<char>>,
                Seq<char>,
            >(msg@),
        },
{
    let ghost ls = texts(lines@);
    let mut result = Config::new();
    let mut idx: usize = 0;
    while idx < lines.len()
        invariant
            ls == texts(lines@),
            idx <= lines.len(),
            load_lines(ls, idx as nat) == Ok::<Map<Seq<char>, Seq<char>>, Seq<char>>(result@),
        decreases lines.len() - idx,
    {
        let ghost before = result@;
        assert(ls[idx as int] == lines@[idx as int]@);
        match parse_config_line(lines[idx].clone()) {
            Ok(r) => match r {
                ConfigLineType::Tokens(tokens) => {
                    if tokens.len() == 2 {
                        assert(texts(tokens@)[0] == tokens@[0]@);
                        assert(texts(tokens@)[1] == tokens@[1]@);
                        result.insert(tokens[0].clone(), tokens[1].clone());
                    } else {
                        let msg = line_fault_message(idx, "to many tokens");
                        proof {
                            lemma_load_error_sticks(ls, (idx + 1) as nat, ls.len());
                        }
                        return Err(msg);
                    }
                },
                _ => {},
            },
            Err(e) => {
                let msg = line_fault_message(idx, e.as_str());
                proof {
                    lemma_load_error_sticks(ls, (idx + 1) as nat, ls.len());
                }
                return Err(msg);
            },
        }
        idx = idx + 1;
    }
    Ok(result)
}

} // verus!
