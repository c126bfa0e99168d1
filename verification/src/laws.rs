//! Properties of the library that span its functions, stated over the spec
//! functions that the functions' contracts use, and proved.
use vstd::prelude::*;

use crate::configparse::{
    join_with, lemma_split_on_nonempty, line_error_text, line_fault_text, load_lines, scan,
    scan_start, scan_step, spec_parse_config_line, spec_parse_config_lines, split_on, tokenize,
    unescape, LineError, LineView, ParseMode, ScanState,
};
use crate::stream_utils::{
    be_u32_bytes, be_u32_value, is_command_name, spec_client_step, spec_decode_command,
    spec_decode_message, spec_encode_message, ActionView, ClientEvent, ClientState,
};
use crate::text::{is_white_space, trim, trim_end, trim_start};
use crate::utils::{is_first_dot, spec_dotsplit};
use crate::{spec_handle_request, spec_load_config, PlanView};
use vstd::utf8::{decode_utf8, encode_utf8, encode_utf8_decode_utf8, encode_utf8_valid_utf8, valid_utf8};

verus! {

/// How a character is written inside a quoted token: a double quote and a
/// backslash behind a backslash, any other character as it is.
pub open spec fn escape_char(c: char) -> Seq<char> {
    if c == '"' || c == '\\' {
        seq!['\\', c]
    } else {
        seq![c]
    }
}

/// A text written for a quoted token, its quotes and backslashes escaped.
pub open spec fn escape_text(s: Seq<char>) -> Seq<char>
    decreases s.len(),
{
    if s.len() == 0 {
        Seq::<char>::empty()
    } else {
        escape_text(s.drop_last()) + escape_char(s.last())
    }
}

/// `tok` between double quotes, escaped.
pub open spec fn quote(tok: Seq<char>) -> Seq<char> {
    seq!['"'] + escape_text(tok) + seq!['"']
}

/// The tokens written each between double quotes, separated by single spaces.
pub open spec fn render_quoted(tokens: Seq<Seq<char>>) -> Seq<char>
    decreases tokens.len(),
{
    if tokens.len() == 0 {
        Seq::<char>::empty()
    } else if tokens.len() == 1 {
        quote(tokens[0])
    } else {
        render_quoted(tokens.drop_last()).push(' ') + quote(tokens.last())
    }
}

/// A text that starts and ends with non-blank characters is its own trim.
proof fn lemma_trim_of_unpadded(s: Seq<char>)
    requires
        s.len() > 0,
        !is_white_space(s[0]),
        !is_white_space(s.last()),
    ensures
        trim(s) == s,
{
    assert(trim_start(s) == s);
    assert(trim_end(s) == s);
}

/// The tokenizer's state after `n` characters depends on those characters only.
proof fn lemma_scan_prefix(t1: Seq<char>, t2: Seq<char>, n: nat)
    requires
        n <= t1.len(),
    ensures
        scan(t1 + t2, n) == scan(t1, n),
    decreases n,
{
    if n > 0 {
        lemma_scan_prefix(t1, t2, (n - 1) as nat);
        let t = t1 + t2;
        assert(t[n - 1] == t1[n - 1]);
        if let Ok(st) = scan(t1, (n - 1) as nat) {
            assert(scan_step(t, st, n - 1) == scan_step(t1, st, n - 1));
        }
    }
}

/// Inside a quoted token, an escaped text adds the text it stands for to the token.
proof fn lemma_scan_escaped(t: Seq<char>, st: ScanState, a: int, tok: Seq<char>)
    requires
        0 <= a,
        a + escape_text(tok).len() <= t.len(),
        t.subrange(a, a + escape_text(tok).len()) == escape_text(tok),
        scan(t, a as nat) == Ok::<ScanState, LineError>(st),
        st.mode == ParseMode::Token,
        st.quoted,
        !st.escaping,
    ensures
        scan(t, (a + escape_text(tok).len()) as nat) == Ok::<ScanState, LineError>(
            ScanState { token: st.token + tok, ..st },
        ),
    decreases tok.len(),
{
    if tok.len() == 0 {
        assert(st.token + tok =~= st.token);
    } else {
        let prev = tok.drop_last();
        let c = tok.last();
        let e = escape_text(tok);
        let ep = escape_text(prev);
        let el: int = e.len() as int;
        let pl: int = ep.len() as int;
        assert(e == ep + escape_char(c));
        let m: int = a + pl;
        let w = t.subrange(a, a + el);
        assert(t.subrange(a, m) =~= ep) by {
            assert forall|j: int| 0 <= j < pl implies t.subrange(a, m)[j] == ep[j] by {
                assert(w[j] == e[j]);
            }
        }
        lemma_scan_escaped(t, st, a, prev);
        let mid = ScanState { token: st.token + prev, ..st };
        assert(t[m] == e[pl]) by {
            assert(w[pl] == e[pl]);
        }
        assert(st.token + tok =~= mid.token.push(c));
        if c == '"' || c == '\\' {
            assert(t[m] == '\\');
            assert(t[m + 1] == c) by {
                assert(w[pl + 1] == e[pl + 1]);
            }
            let esc = ScanState { escaping: true, ..mid };
            assert(scan(t, (m + 1) as nat) == Ok::<ScanState, LineError>(esc));
            assert(unescape(c) == c);
            assert(scan(t, (m + 2) as nat) == Ok::<ScanState, LineError>(
                ScanState { token: st.token + tok, ..st },
            ));
        } else {
            assert(t[m] == c);
            assert(scan(t, (m + 1) as nat) == Ok::<ScanState, LineError>(
                ScanState { token: st.token + tok, ..st },
            ));
        }
    }
}

/// Scanning a quoted token from between tokens reads exactly that token.
proof fn lemma_scan_quote(t: Seq<char>, st: ScanState, a: int, tok: Seq<char>)
    requires
        0 <= a,
        a + quote(tok).len() <= t.len(),
        t.subrange(a, a + quote(tok).len()) == quote(tok),
        scan(t, a as nat) == Ok::<ScanState, LineError>(st),
        st.mode == ParseMode::ExpectToken,
    ensures
        scan(t, (a + quote(tok).len()) as nat) matches Ok(st2) && st2.mode
            == ParseMode::ExpectToken && st2.quoted && st2.tokens == st.tokens.push(tok),
{
    let q = quote(tok);
    let e = escape_text(tok);
    let ql: int = q.len() as int;
    let el: int = e.len() as int;
    let w = t.subrange(a, a + ql);
    assert(ql == el + 2);
    assert(q[0] == '"');
    assert(q[el + 1] == '"');
    assert forall|j: int| 0 <= j < el implies q[j + 1] == e[j] by {}
    assert(t[a] == q[0]) by {
        assert(w[0] == q[0]);
    }
    let open = ScanState {
        mode: ParseMode::Token,
        quoted: true,
        escaping: false,
        token: seq![],
        ..st
    };
    assert(scan(t, (a + 1) as nat) == Ok::<ScanState, LineError>(open));
    assert(t.subrange(a + 1, a + 1 + el) =~= e) by {
        assert forall|j: int| 0 <= j < el implies t.subrange(a + 1, a + 1 + el)[j] == e[j] by {
            assert(w[j + 1] == q[j + 1]);
        }
    }
    lemma_scan_escaped(t, open, a + 1, tok);
    assert(t[a + 1 + el] == '"') by {
        assert(w[el + 1] == q[el + 1]);
    }
    assert(Seq::<char>::empty() + tok =~= tok);
}

/// A rendered line of quoted tokens starts and ends with a quote.
proof fn lemma_render_ends(tokens: Seq<Seq<char>>)
    requires
        tokens.len() >= 1,
    ensures
        render_quoted(tokens).len() >= 2,
        render_quoted(tokens)[0] == '"',
        render_quoted(tokens).last() == '"',
    decreases tokens.len(),
{
    if tokens.len() > 1 {
        lemma_render_ends(tokens.drop_last());
    }
}

/// Scanning a rendered line of quoted tokens ends between tokens, with every token read.
proof fn lemma_scan_render(tokens: Seq<Seq<char>>)
    requires
        tokens.len() >= 1,
    ensures
        scan(render_quoted(tokens), render_quoted(tokens).len()) matches Ok(st) && st.mode
            == ParseMode::ExpectToken && st.tokens == tokens,
    decreases tokens.len(),
{
    let t = render_quoted(tokens);
    let last = tokens.last();
    if tokens.len() == 1 {
        assert(t == quote(last));
        assert(scan(t, 0) == Ok::<ScanState, LineError>(scan_start()));
        assert(t.subrange(0, t.len() as int) =~= t);
        lemma_scan_quote(t, scan_start(), 0, last);
        assert(seq![last] =~= tokens);
        assert(Seq::<Seq<char>>::empty().push(last) =~= tokens);
    } else {
        let prev = tokens.drop_last();
        lemma_scan_render(prev);
        let p = render_quoted(prev);
        let l: int = p.len() as int;
        let rest = seq![' '] + quote(last);
        assert(t =~= p + rest);
        lemma_scan_prefix(p, rest, l as nat);
        let st1 = scan(p, l as nat)->Ok_0;
        assert(t[l] == ' ');
        assert(scan(t, (l + 1) as nat) == Ok::<ScanState, LineError>(st1));
        assert(t.subrange(l + 1, t.len() as int) =~= quote(last));
        lemma_scan_quote(t, st1, l + 1, last);
        assert(prev.push(last) =~= tokens);
    }
}

/// Any tokens, written each between double quotes with their quotes and
/// backslashes escaped, and separated by spaces, parse back to the same tokens.
pub proof fn law_quoted_tokens_round_trip(tokens: Seq<Seq<char>>)
    requires
        tokens.len() >= 1,
    ensures
        spec_parse_config_line(render_quoted(tokens)) == Ok::<LineView, LineError>(
            LineView::Tokens(tokens),
        ),
{
    lemma_scan_render(tokens);
    lemma_render_ends(tokens);
    let t = render_quoted(tokens);
    lemma_trim_of_unpadded(t);
    assert(tokenize(t) == Ok::<Seq<Seq<char>>, LineError>(tokens));
}

} // verus!

verus! {

/// The words separated by single spaces.
pub open spec fn render_words(words: Seq<Seq<char>>) -> Seq<char>
    decreases words.len(),
{
    if words.len() == 0 {
        Seq::<char>::empty()
    } else if words.len() == 1 {
        words[0]
    } else {
        render_words(words.drop_last()).push(' ') + words.last()
    }
}

/// A bare word: not empty, without white space or double quotes, and not
/// starting with a backslash.
pub open spec fn is_bare_word(w: Seq<char>) -> bool {
    &&& w.len() > 0
    &&& w[0] != '\\'
    &&& forall|j: int| 0 <= j < w.len() ==> #[trigger] w[j] != '"' && !is_white_space(w[j])
}

/// Inside an unquoted token, characters other than quotes and white space
/// are added to the token as they are.
proof fn lemma_scan_bare_run(t: Seq<char>, st: ScanState, a: nat, m: nat)
    requires
        a <= m <= t.len(),
        scan(t, a) == Ok::<ScanState, LineError>(st),
        st.mode == ParseMode::Token,
        !st.quoted,
        !st.escaping,
        forall|j: int| a <= j < m ==> t[j] != '"' && !is_white_space(t[j]),
    ensures
        scan(t, m) == Ok::<ScanState, LineError>(
            ScanState { token: st.token + t.subrange(a as int, m as int), ..st },
        ),
    decreases m - a,
{
    if m > a {
        lemma_scan_bare_run(t, st, a, (m - 1) as nat);
        assert(t[m - 1] != '"' && !is_white_space(t[m - 1]));
        assert(st.token + t.subrange(a as int, m as int) =~= (st.token + t.subrange(
            a as int,
            m - 1,
        )).push(t[m - 1]));
    } else {
        assert(st.token + t.subrange(a as int, m as int) =~= st.token);
    }
}

/// Scanning bare words separated by spaces ends inside the last word, with
/// every earlier word read.
proof fn lemma_scan_words(words: Seq<Seq<char>>)
    requires
        words.len() >= 1,
        forall|i: int| 0 <= i < words.len() ==> is_bare_word(#[trigger] words[i]),
    ensures
        render_words(words).len() >= words.last().len(),
        render_words(words)[0] == words[0][0],
        render_words(words).last() == words.last().last(),
        scan(render_words(words), render_words(words).len()) matches Ok(st) && st.mode
            == ParseMode::Token && !st.quoted && !st.escaping && st.token == words.last() && st.tokens
            == words.drop_last(),
    decreases words.len(),
{
    let t = render_words(words);
    let w = words.last();
    assert(is_bare_word(w));
    assert(w[0] != '"' && !is_white_space(w[0]));
    if words.len() == 1 {
        assert(t == w);
        let st0 = ScanState { mode: ParseMode::Token, token: seq![w[0]], ..scan_start() };
        assert(scan(t, 0) == Ok::<ScanState, LineError>(scan_start()));
        assert(scan(t, 1) == Ok::<ScanState, LineError>(st0));
        lemma_scan_bare_run(t, st0, 1, t.len());
        assert(seq![w[0]] + t.subrange(1, t.len() as int) =~= w);
        assert(words.drop_last() =~= Seq::<Seq<char>>::empty());
    } else {
        let prev = words.drop_last();
        assert forall|i: int| 0 <= i < prev.len() implies is_bare_word(#[trigger] prev[i]) by {
            assert(prev[i] == words[i]);
        }
        lemma_scan_words(prev);
        let p = render_words(prev);
        let l: int = p.len() as int;
        let rest = seq![' '] + w;
        assert(t =~= p + rest);
        lemma_scan_prefix(p, rest, l as nat);
        let st1 = scan(p, l as nat)->Ok_0;
        assert(t[l] == ' ');
        assert(is_white_space(' '));
        let st2 = ScanState { mode: ParseMode::ExpectToken, tokens: prev, ..st1 };
        assert(prev.drop_last().push(prev.last()) =~= prev);
        assert(scan(t, (l + 1) as nat) == Ok::<ScanState, LineError>(st2));
        assert(t[l + 1] == w[0]);
        let st3 = ScanState { mode: ParseMode::Token, token: seq![w[0]], ..st2 };
        assert(scan(t, (l + 2) as nat) == Ok::<ScanState, LineError>(st3));
        assert forall|j: int| l + 2 <= j < t.len() implies t[j] != '"' && !is_white_space(t[j]) by {
            assert(t[j] == w[j - l - 1]);
        }
        lemma_scan_bare_run(t, st3, (l + 2) as nat, t.len());
        assert(seq![w[0]] + t.subrange(l + 2, t.len() as int) =~= w);
        assert(t[0] == p[0]);
    }
}

/// Bare words separated by spaces parse to the same words, provided the line
/// does not start with `#`.
pub proof fn law_bare_words_round_trip(words: Seq<Seq<char>>)
    requires
        words.len() >= 1,
        forall|i: int| 0 <= i < words.len() ==> is_bare_word(#[trigger] words[i]),
        words[0][0] != '#',
    ensures
        spec_parse_config_line(render_words(words)) == Ok::<LineView, LineError>(
            LineView::Tokens(words),
        ),
{
    lemma_scan_words(words);
    let t = render_words(words);
    let w = words.last();
    assert(is_bare_word(w));
    assert(is_bare_word(words[0]));
    assert(!is_white_space(w[w.len() - 1]));
    lemma_trim_of_unpadded(t);
    assert(words.drop_last().push(w) =~= words);
}

} // verus!

verus! {

/// Joining with `sep` a sequence whose last piece grows by `c` grows the joined text by `c`.
proof fn lemma_join_extend_last(pieces: Seq<Seq<char>>, sep: char, c: char)
    requires
        pieces.len() >= 1,
    ensures
        join_with(pieces.update(pieces.len() - 1, pieces.last().push(c)), sep) == join_with(
            pieces,
            sep,
        ).push(c),
{
    let q = pieces.update(pieces.len() - 1, pieces.last().push(c));
    if pieces.len() > 1 {
        assert(q.drop_last() =~= pieces.drop_last());
        assert(join_with(q, sep) =~= join_with(pieces, sep).push(c));
    }
}

/// Splitting a text at a separator and joining the pieces with it gives the
/// text back, and no piece holds the separator: the lines of a configuration
/// held in an environment variable are exactly its `;`-separated parts.
pub proof fn law_split_join(s: Seq<char>, sep: char)
    ensures
        join_with(split_on(s, sep), sep) == s,
        forall|i: int|
            0 <= i < split_on(s, sep).len() ==> !(#[trigger] split_on(s, sep)[i]).contains(sep),
    decreases s.len(),
{
    if s.len() > 0 {
        let p = s.drop_last();
        law_split_join(p, sep);
        lemma_split_on_nonempty(p, sep);
        let pieces = split_on(p, sep);
        if s.last() == sep {
            let q = pieces.push(Seq::<char>::empty());
            assert(q.drop_last() =~= pieces);
            assert(join_with(q, sep) =~= s);
            assert forall|i: int| 0 <= i < q.len() implies !(#[trigger] q[i]).contains(sep) by {
                if i < pieces.len() {
                    assert(q[i] == pieces[i]);
                }
            }
        } else {
            lemma_join_extend_last(pieces, sep, s.last());
            assert(p.push(s.last()) =~= s);
            let q = pieces.update(pieces.len() - 1, pieces.last().push(s.last()));
            assert forall|i: int| 0 <= i < q.len() implies !(#[trigger] q[i]).contains(sep) by {
                if i < pieces.len() - 1 {
                    assert(q[i] == pieces[i]);
                } else {
                    let last = pieces.last();
                    assert(!last.contains(sep));
                    if q[i].contains(sep) {
                        let k: int = choose|k: int| 0 <= k < q[i].len() && q[i][k] == sep;
                        if k < last.len() {
                            assert(last[k] == sep);
                        }
                    }
                }
            }
        }
    } else {
        assert(split_on(s, sep) =~= seq![Seq::<char>::empty()]);
    }
}

} // verus!

verus! {

/// A text that holds a `.` has a first one.
proof fn lemma_first_dot_exists(s: Seq<char>, k: int)
    requires
        0 <= k < s.len(),
        s[k] == '.',
    ensures
        exists|i: int| is_first_dot(s, i),
    decreases k,
{
    if exists|j: int| 0 <= j < k && s[j] == '.' {
        let j: int = choose|j: int| 0 <= j < k && s[j] == '.';
        lemma_first_dot_exists(s, j);
    } else {
        assert(is_first_dot(s, k));
    }
}

/// `dotsplit` cuts a text at its first `.`: the head holds no `.`, and the
/// head, a `.` and the rest give the text back; a text without a `.` stays whole.
pub proof fn law_dotsplit_rejoins(s: Seq<char>)
    ensures
        !spec_dotsplit(s).0.contains('.'),
        match spec_dotsplit(s).1 {
            Some(rest) => spec_dotsplit(s).0 + seq!['.'] + rest == s,
            None => spec_dotsplit(s).0 == s,
        },
{
    if s.contains('.') {
        let k: int = choose|k: int| 0 <= k < s.len() && s[k] == '.';
        lemma_first_dot_exists(s, k);
        let i: int = choose|i: int| is_first_dot(s, i);
        assert(s.take(i) + seq!['.'] + s.skip(i + 1) =~= s);
        if s.take(i).contains('.') {
            let j: int = choose|j: int| 0 <= j < s.take(i).len() && s.take(i)[j] == '.';
            assert(s[j] == '.');
        }
    }
}

} // verus!

verus! {

/// Four big-endian bytes read back the value they were written from.
proof fn lemma_be_u32_round_trip(v: u32)
    ensures
        be_u32_value(be_u32_bytes(v)) == v,
{
    let b = be_u32_bytes(v);
    assert(b[0] == v / 0x1000000);
    assert(b[1] == (v / 0x10000) % 0x100);
    assert(b[2] == (v / 0x100) % 0x100);
    assert(b[3] == v % 0x100);
    assert((v / 0x1000000) * 0x1000000 + ((v / 0x10000) % 0x100) * 0x10000 + ((v / 0x100)
        % 0x100) * 0x100 + v % 0x100 == v) by (nonlinear_arith);
}

/// A framed message starts with a header that announces the payload's length,
/// and the payload follows it unchanged.
pub proof fn law_frame_round_trip(raw: Seq<u8>)
    requires
        raw.len() <= u32::MAX,
    ensures
        spec_encode_message(raw).len() == raw.len() + 4,
        be_u32_value(spec_encode_message(raw).take(4)) == raw.len(),
        spec_encode_message(raw).skip(4) == raw,
{
    let v: u32 = (raw.len() % 0x1_0000_0000) as u32;
    assert(v == raw.len());
    lemma_be_u32_round_trip(v);
    let f = spec_encode_message(raw);
    assert(f.take(4) =~= be_u32_bytes(v));
    assert(f.skip(4) =~= raw);
}

/// A server that reads the header of a framed payload no larger than its
/// limit asks next for exactly that payload.
pub proof fn law_header_asks_for_payload(raw: Seq<u8>, header: [u8; 4], max_packet_size: u32)
    requires
        raw.len() <= max_packet_size,
        header@ == spec_encode_message(raw).take(4),
    ensures
        spec_client_step(ClientState::AwaitingHeader, ClientEvent::Header(header), max_packet_size)
            == (ClientState::AwaitingBody, ActionView::ReadBody(raw.len() as u32)),
{
    law_frame_round_trip(raw);
}

} // verus!

verus! {

/// A command written as text: its name and its parameter, each between
/// double quotes.
pub open spec fn render_command(cmd: Seq<char>, param: Option<Seq<char>>) -> Seq<char> {
    match param {
        Some(p) => render_quoted(seq![cmd, p]),
        None => render_quoted(seq![cmd]),
    }
}

/// A command written as bare words: `GET_KEY myapp.foo`.
pub open spec fn render_bare_command(cmd: Seq<char>, param: Option<Seq<char>>) -> Seq<char> {
    match param {
        Some(p) => render_words(seq![cmd, p]),
        None => render_words(seq![cmd]),
    }
}

/// `text` is a way of writing the command: quoted, or as bare words when the
/// parameter is a bare word.
pub open spec fn writes_command(text: Seq<char>, cmd: Seq<char>, param: Option<Seq<char>>) -> bool {
    ||| text == render_command(cmd, param)
    ||| text == render_bare_command(cmd, param) && (param matches Some(p) ==> is_bare_word(p))
}

/// Every command name is a bare word that does not start with `#`.
proof fn lemma_command_names_are_bare(cmd: Seq<char>)
    requires
        is_command_name(cmd),
    ensures
        is_bare_word(cmd),
        cmd[0] != '#',
{
    reveal_strlit("GET_KEY");
    reveal_strlit("HAS_KEY");
    reveal_strlit("GET_SUBKEYS");
    assert(cmd == "GET_KEY"@ || cmd == "HAS_KEY"@ || cmd == "GET_SUBKEYS"@);
}

/// The written text of a command decodes to that command, provided only
/// `GET_SUBKEYS` comes without a parameter.
pub proof fn law_command_text_round_trip(
    text: Seq<char>,
    cmd: Seq<char>,
    param: Option<Seq<char>>,
)
    requires
        is_command_name(cmd),
        param is None ==> cmd == "GET_SUBKEYS"@,
        writes_command(text, cmd, param),
    ensures
        spec_decode_command(text) == Ok::<(Seq<char>, Option<Seq<char>>), Seq<char>>(
            (cmd, param),
        ),
{
    let tokens = match param {
        Some(p) => seq![cmd, p],
        None => seq![cmd],
    };
    if text == render_command(cmd, param) {
        law_quoted_tokens_round_trip(tokens);
    } else {
        lemma_command_names_are_bare(cmd);
        assert forall|i: int| 0 <= i < tokens.len() implies is_bare_word(#[trigger] tokens[i]) by {
            if i == 1 {
                assert(tokens[1] == param->Some_0);
            }
        }
        law_bare_words_round_trip(tokens);
    }
}

/// A server that reads a payload holding the UTF-8 text of a command hands
/// that command on.
pub proof fn law_command_is_dispatched(
    text: Seq<char>,
    cmd: Seq<char>,
    param: Option<Seq<char>>,
    body: Vec<u8>,
    max_packet_size: u32,
)
    requires
        is_command_name(cmd),
        param is None ==> cmd == "GET_SUBKEYS"@,
        writes_command(text, cmd, param),
        body@ == encode_utf8(text),
    ensures
        spec_decode_message(body@) == Ok::<(Seq<char>, Option<Seq<char>>), Seq<char>>(
            (cmd, param),
        ),
        spec_client_step(ClientState::AwaitingBody, ClientEvent::Body(body), max_packet_size) == (
            ClientState::AwaitingHeader,
            ActionView::Dispatch((cmd, param)),
        ),
{
    law_command_text_round_trip(text, cmd, param);
    encode_utf8_valid_utf8(text);
    encode_utf8_decode_utf8(text);
}

/// The actions that a client connection takes for a run of read events.
pub open spec fn run_session(state: ClientState, events: Seq<ClientEvent>, max_packet_size: u32) -> Seq<
    ActionView,
>
    decreases events.len(),
{
    if events.len() == 0 {
        Seq::<ActionView>::empty()
    } else {
        let (next, action) = spec_client_step(state, events[0], max_packet_size);
        seq![action] + run_session(next, events.drop_first(), max_packet_size)
    }
}

/// What the reads give when a client sends one framed message per payload
/// and then goes away: each header, then its payload, and finally a failed read.
pub open spec fn session_events(headers: Seq<[u8; 4]>, bodies: Seq<Vec<u8>>) -> Seq<ClientEvent>
    decreases bodies.len(),
{
    if bodies.len() == 0 || headers.len() == 0 {
        seq![ClientEvent::ReadFailed]
    } else {
        seq![ClientEvent::Header(headers[0]), ClientEvent::Body(bodies[0])] + session_events(
            headers.drop_first(),
            bodies.drop_first(),
        )
    }
}

/// The actions owed for those messages: ask for each payload, hand on its
/// command, and in the end close.
pub open spec fn session_actions(
    bodies: Seq<Vec<u8>>,
    commands: Seq<(Seq<char>, Option<Seq<char>>)>,
) -> Seq<ActionView>
    decreases bodies.len(),
{
    if bodies.len() == 0 || commands.len() == 0 {
        seq![ActionView::Close]
    } else {
        seq![
            ActionView::ReadBody(bodies[0]@.len() as u32),
            ActionView::Dispatch(commands[0]),
        ] + session_actions(bodies.drop_first(), commands.drop_first())
    }
}

/// A client that sends framed messages, each no larger than the server's
/// limit and each decoding to a command, and then goes away, has its
/// commands handed on one at a time, in the order sent, each after its
/// payload was read; then the connection closes.
pub proof fn law_session_dispatches_in_order(
    headers: Seq<[u8; 4]>,
    bodies: Seq<Vec<u8>>,
    commands: Seq<(Seq<char>, Option<Seq<char>>)>,
    max_packet_size: u32,
)
    requires
        headers.len() == bodies.len(),
        commands.len() == bodies.len(),
        forall|i: int|
            0 <= i < bodies.len() ==> (#[trigger] bodies[i])@.len() <= max_packet_size
                && headers[i]@ == spec_encode_message(bodies[i]@).take(4)
                && spec_decode_message(bodies[i]@) == Ok::<
                (Seq<char>, Option<Seq<char>>),
                Seq<char>,
            >(commands[i]),
    ensures
        run_session(
            ClientState::AwaitingHeader,
            session_events(headers, bodies),
            max_packet_size,
        ) == session_actions(bodies, commands),
    decreases bodies.len(),
{
    let events = session_events(headers, bodies);
    if bodies.len() == 0 {
        assert(run_session(ClientState::AwaitingHeader, events.drop_first(), max_packet_size)
            == Seq::<ActionView>::empty());
        assert(run_session(ClientState::AwaitingHeader, events, max_packet_size) =~= seq![
            ActionView::Close,
        ]);
    } else {
        let b0 = bodies[0];
        law_header_asks_for_payload(b0@, headers[0], max_packet_size);
        law_session_dispatches_in_order(
            headers.drop_first(),
            bodies.drop_first(),
            commands.drop_first(),
            max_packet_size,
        );
        let rest = session_events(headers.drop_first(), bodies.drop_first());
        assert(events.drop_first().drop_first() =~= rest);
        assert(events.drop_first()[0] == ClientEvent::Body(b0));
        let after_body = run_session(ClientState::AwaitingBody, events.drop_first(), max_packet_size);
        assert(after_body =~= seq![ActionView::Dispatch(commands[0])] + run_session(
            ClientState::AwaitingHeader,
            rest,
            max_packet_size,
        ));
        assert(run_session(ClientState::AwaitingHeader, events, max_packet_size) =~= seq![
            ActionView::ReadBody(b0@.len() as u32),
        ] + after_body);
    }
}

} // verus!

verus! {

/// Configuration lines that set each key to its value, both between double quotes.
pub open spec fn render_config(pairs: Seq<(Seq<char>, Seq<char>)>) -> Seq<Seq<char>> {
    pairs.map_values(|p: (Seq<char>, Seq<char>)| render_quoted(seq![p.0, p.1]))
}

/// The options that the first `n` pairs set, later pairs overriding earlier ones.
pub open spec fn options_of(pairs: Seq<(Seq<char>, Seq<char>)>, n: nat) -> Map<Seq<char>, Seq<char>>
    decreases n,
{
    if n == 0 {
        Map::empty()
    } else {
        options_of(pairs, (n - 1) as nat).insert(pairs[n - 1].0, pairs[n - 1].1)
    }
}

proof fn lemma_load_rendered(pairs: Seq<(Seq<char>, Seq<char>)>, n: nat)
    requires
        n <= pairs.len(),
    ensures
        load_lines(render_config(pairs), n) == Ok::<Map<Seq<char>, Seq<char>>, Seq<char>>(
            options_of(pairs, n),
        ),
    decreases n,
{
    if n > 0 {
        lemma_load_rendered(pairs, (n - 1) as nat);
        let p = pairs[n - 1];
        let tokens = seq![p.0, p.1];
        law_quoted_tokens_round_trip(tokens);
        assert(render_config(pairs)[n - 1] == render_quoted(tokens));
    }
}

/// A configuration written as lines of quoted (and escaped) keys and values
/// reads back as the options those lines set, a later line overriding an
/// earlier one.
pub proof fn law_config_round_trip(pairs: Seq<(Seq<char>, Seq<char>)>)
    ensures
        spec_parse_config_lines(render_config(pairs)) == Ok::<
            Map<Seq<char>, Seq<char>>,
            Seq<char>,
        >(options_of(pairs, pairs.len())),
{
    lemma_load_rendered(pairs, pairs.len());
}

} // verus!

verus! {

/// Past leading white space, trimming the front gives the same result.
proof fn lemma_trim_start_skips(s: Seq<char>, k: int)
    requires
        0 <= k <= s.len(),
        forall|j: int| 0 <= j < k ==> is_white_space(#[trigger] s[j]),
    ensures
        trim_start(s) == trim_start(s.skip(k)),
    decreases k,
{
    if k > 0 {
        assert(is_white_space(s[0]));
        let d = s.drop_first();
        assert forall|j: int| 0 <= j < k - 1 implies is_white_space(#[trigger] d[j]) by {
            assert(d[j] == s[j + 1]);
        }
        lemma_trim_start_skips(d, k - 1);
        assert(d.skip(k - 1) =~= s.skip(k));
    } else {
        assert(s.skip(0) =~= s);
    }
}

/// Trimming the end of a text that starts with a non-blank character keeps that character first.
proof fn lemma_trim_end_keeps_head(s: Seq<char>)
    requires
        s.len() > 0,
        !is_white_space(s[0]),
    ensures
        trim_end(s).len() > 0,
        trim_end(s)[0] == s[0],
    decreases s.len(),
{
    if is_white_space(s.last()) {
        assert(s.len() > 1);
        assert(s.drop_last()[0] == s[0]);
        lemma_trim_end_keeps_head(s.drop_last());
    }
}

/// A line of nothing but white space parses as blank, holding the line as given.
pub proof fn law_blank_line(line: Seq<char>)
    requires
        forall|j: int| 0 <= j < line.len() ==> is_white_space(#[trigger] line[j]),
    ensures
        spec_parse_config_line(line) == Ok::<LineView, LineError>(
            LineView::Whitespace(line),
        ),
{
    lemma_trim_start_skips(line, line.len() as int);
    assert(line.skip(line.len() as int) =~= Seq::<char>::empty());
    assert(trim_start(Seq::<char>::empty()) == Seq::<char>::empty());
    assert(trim_end(Seq::<char>::empty()) == Seq::<char>::empty());
}

/// A line whose first non-blank character is `#` parses as a comment, holding
/// the line as given.
pub proof fn law_comment_line(line: Seq<char>, k: int)
    requires
        0 <= k < line.len(),
        forall|j: int| 0 <= j < k ==> is_white_space(#[trigger] line[j]),
        line[k] == '#',
    ensures
        spec_parse_config_line(line) == Ok::<LineView, LineError>(
            LineView::Comment(line),
        ),
{
    lemma_trim_start_skips(line, k);
    let s = line.skip(k);
    assert(s[0] == '#');
    assert(!is_white_space('#'));
    assert(trim_start(s) == s);
    lemma_trim_end_keeps_head(s);
}

/// A request that names an instrument which is not registered is answered `null`.
pub proof fn law_unregistered_instrument_answers_null(
    cmd: Seq<char>,
    param: Seq<char>,
    names: Seq<Seq<char>>,
)
    requires
        !names.contains(spec_dotsplit(param).0),
    ensures
        spec_handle_request(cmd, Some(param), names) == PlanView::Null,
{
}

} // verus!

verus! {

/// Whether a configuration file may hold the line: a blank line, a comment,
/// or a line of exactly two tokens.
pub open spec fn line_is_accepted(l: Seq<char>) -> bool {
    match spec_parse_config_line(l) {
        Ok(LineView::Tokens(ts)) => ts.len() == 2,
        Ok(_) => true,
        Err(_) => false,
    }
}

/// Why a line that a configuration file may not hold is refused.
pub open spec fn line_refusal(l: Seq<char>) -> Seq<char> {
    match spec_parse_config_line(l) {
        Err(e) => line_error_text(e),
        _ => "to many tokens"@,
    }
}

/// Whether the line is a line of two tokens whose first is `k`.
pub open spec fn line_sets(l: Seq<char>, k: Seq<char>) -> bool {
    match spec_parse_config_line(l) {
        Ok(LineView::Tokens(ts)) => ts.len() == 2 && ts[0] == k,
        _ => false,
    }
}

/// The second token of a line of tokens.
pub open spec fn line_value(l: Seq<char>) -> Seq<char> {
    match spec_parse_config_line(l) {
        Ok(LineView::Tokens(ts)) => ts[1],
        _ => Seq::<char>::empty(),
    }
}

/// Every one of the first `n` lines may stand in a configuration file.
pub open spec fn all_accepted(lines: Seq<Seq<char>>, n: int) -> bool {
    forall|i: int| 0 <= i < n ==> #[trigger] line_is_accepted(lines[i])
}

/// Line `i` is the last of the first `n` lines that sets `k`.
pub open spec fn last_setter(lines: Seq<Seq<char>>, n: int, k: Seq<char>, i: int) -> bool {
    &&& 0 <= i < n
    &&& line_sets(lines[i], k)
    &&& forall|j: int| i < j < n ==> !#[trigger] line_sets(lines[j], k)
}

/// Line `i` is the first line that a configuration file may not hold.
pub open spec fn first_refused(lines: Seq<Seq<char>>, i: int) -> bool {
    &&& 0 <= i < lines.len()
    &&& !line_is_accepted(lines[i])
    &&& all_accepted(lines, i)
}

proof fn lemma_load_lines_declared(lines: Seq<Seq<char>>, n: nat)
    requires
        n <= lines.len(),
    ensures
        all_accepted(lines, n as int) ==> {
            &&& load_lines(lines, n) is Ok
            &&& forall|k: Seq<char>|
                #![trigger load_lines(lines, n)->Ok_0.dom().contains(k)]
                load_lines(lines, n)->Ok_0.dom().contains(k) <==> exists|i: int|
                    0 <= i < n && #[trigger] line_sets(lines[i], k)
            &&& forall|k: Seq<char>, i: int|
                #[trigger] last_setter(lines, n as int, k, i) ==> load_lines(lines, n)->Ok_0[k]
                    == line_value(lines[i])
        },
        !all_accepted(lines, n as int) ==> exists|i: int|
            #[trigger] first_refused(lines, i) && i < n && load_lines(lines, n) == Err::<
                Map<Seq<char>, Seq<char>>,
                Seq<char>,
            >(line_fault_text(i as nat, line_refusal(lines[i]))),
    decreases n,
{
    if n == 0 {
        return;
    }
    let p = (n - 1) as nat;
    lemma_load_lines_declared(lines, p);
    let l = lines[p as int];
    if !all_accepted(lines, p as int) {
        let i = choose|i: int|
            #[trigger] first_refused(lines, i) && i < p && load_lines(lines, p) == Err::<
                Map<Seq<char>, Seq<char>>,
                Seq<char>,
            >(line_fault_text(i as nat, line_refusal(lines[i])));
        assert(!line_is_accepted(lines[i]));
        assert(!all_accepted(lines, n as int));
        assert(first_refused(lines, i));
        return;
    }
    let m = load_lines(lines, p)->Ok_0;
    if !line_is_accepted(l) {
        assert(!all_accepted(lines, n as int));
        assert(first_refused(lines, p as int));
        match spec_parse_config_line(l) {
            Ok(LineView::Tokens(ts)) => {},
            Ok(_) => {},
            Err(e) => {},
        }
        return;
    }
    assert forall|i: int| 0 <= i < n implies #[trigger] line_is_accepted(lines[i]) by {
        if i < p {
            assert(line_is_accepted(lines[i]));
        }
    }
    assert(all_accepted(lines, n as int));
    let r = load_lines(lines, n)->Ok_0;
    assert forall|k: Seq<char>| r.dom().contains(k) <==> exists|i: int|
        0 <= i < n && #[trigger] line_sets(lines[i], k) by {
        if r.dom().contains(k) && !line_sets(l, k) {
            assert(m.dom().contains(k));
            let i = choose|i: int| 0 <= i < p && #[trigger] line_sets(lines[i], k);
            assert(0 <= i < n && line_sets(lines[i], k));
        }
        if exists|i: int| 0 <= i < n && #[trigger] line_sets(lines[i], k) {
            let i = choose|i: int| 0 <= i < n && #[trigger] line_sets(lines[i], k);
            if i < p {
                assert(m.dom().contains(k));
            }
        }
    }
    assert forall|k: Seq<char>, i: int| #[trigger] last_setter(lines, n as int, k, i) implies r[k]
        == line_value(lines[i]) by {
        if i < p {
            assert(!line_sets(l, k));
            assert(last_setter(lines, p as int, k, i));
        }
    }
}

/// Reading configuration lines succeeds exactly when every line is blank, a
/// comment, or a line of two tokens. Then the options are the first tokens of
/// the lines of two tokens, each set to the second token of the last line that
/// names it. Otherwise the message names the first line refused, counting from
/// 0, and says why.
pub proof fn law_config_lines_read_line_by_line(lines: Seq<Seq<char>>)
    ensures
        spec_parse_config_lines(lines) is Ok <==> all_accepted(lines, lines.len() as int),
        all_accepted(lines, lines.len() as int) ==> forall|k: Seq<char>|
            #![trigger spec_parse_config_lines(lines)->Ok_0.dom().contains(k)]
            spec_parse_config_lines(lines)->Ok_0.dom().contains(k) <==> exists|i: int|
                0 <= i < lines.len() && #[trigger] line_sets(lines[i], k),
        all_accepted(lines, lines.len() as int) ==> forall|k: Seq<char>, i: int|
            #[trigger] last_setter(lines, lines.len() as int, k, i) ==> spec_parse_config_lines(
                lines,
            )->Ok_0[k] == line_value(lines[i]),
        !all_accepted(lines, lines.len() as int) ==> exists|i: int| #[trigger]
            first_refused(lines, i),
        forall|i: int|
            #[trigger] first_refused(lines, i) ==> spec_parse_config_lines(lines) == Err::<
                Map<Seq<char>, Seq<char>>,
                Seq<char>,
            >(line_fault_text(i as nat, line_refusal(lines[i]))),
{
    lemma_load_lines_declared(lines, lines.len());
    assert forall|i: int| #[trigger] first_refused(lines, i) implies spec_parse_config_lines(lines)
        == Err::<Map<Seq<char>, Seq<char>>, Seq<char>>(
        line_fault_text(i as nat, line_refusal(lines[i])),
    ) by {
        assert(!all_accepted(lines, lines.len() as int));
        let i0 = choose|i0: int|
            #[trigger] first_refused(lines, i0) && i0 < lines.len() && load_lines(lines, lines.len())
                == Err::<Map<Seq<char>, Seq<char>>, Seq<char>>(
                line_fault_text(i0 as nat, line_refusal(lines[i0])),
            );
        if i0 < i {
            assert(line_is_accepted(lines[i0]));
        }
        if i < i0 {
            assert(line_is_accepted(lines[i]));
        }
    }
}

} // verus!

verus! {

/// A non-empty run of white space: spaces, tabs, or any other white-space characters.
pub open spec fn is_blank_run(g: Seq<char>) -> bool {
    &&& g.len() > 0
    &&& forall|j: int| 0 <= j < g.len() ==> is_white_space(#[trigger] g[j])
}

/// The words, with `gaps[i]` written between `words[i]` and `words[i + 1]`.
pub open spec fn render_gapped(words: Seq<Seq<char>>, gaps: Seq<Seq<char>>) -> Seq<char>
    decreases words.len(),
{
    if words.len() == 0 {
        Seq::<char>::empty()
    } else if words.len() == 1 {
        words[0]
    } else {
        render_gapped(words.drop_last(), gaps.drop_last()) + gaps.last() + words.last()
    }
}

/// Between tokens, white space leaves the tokenizer as it was.
proof fn lemma_scan_blank_run(t: Seq<char>, st: ScanState, a: nat, m: nat)
    requires
        a <= m <= t.len(),
        scan(t, a) == Ok::<ScanState, LineError>(st),
        st.mode == ParseMode::ExpectToken,
        forall|j: int| a <= j < m ==> is_white_space(#[trigger] t[j]),
    ensures
        scan(t, m) == Ok::<ScanState, LineError>(st),
    decreases m - a,
{
    if m > a {
        lemma_scan_blank_run(t, st, a, (m - 1) as nat);
        assert(is_white_space(t[m - 1]));
    }
}

/// Scanning bare words separated by runs of white space ends inside the last
/// word, with every earlier word read.
proof fn lemma_scan_gapped(words: Seq<Seq<char>>, gaps: Seq<Seq<char>>)
    requires
        words.len() >= 1,
        gaps.len() == words.len() - 1,
        forall|i: int| 0 <= i < words.len() ==> is_bare_word(#[trigger] words[i]),
        forall|i: int| 0 <= i < gaps.len() ==> is_blank_run(#[trigger] gaps[i]),
    ensures
        render_gapped(words, gaps).len() >= words.last().len(),
        render_gapped(words, gaps)[0] == words[0][0],
        render_gapped(words, gaps).last() == words.last().last(),
        scan(render_gapped(words, gaps), render_gapped(words, gaps).len()) matches Ok(st)
            && st.mode == ParseMode::Token && !st.quoted && !st.escaping && st.token
            == words.last() && st.tokens == words.drop_last(),
    decreases words.len(),
{
    let t = render_gapped(words, gaps);
    let w = words.last();
    assert(is_bare_word(w));
    assert(w[0] != '"' && !is_white_space(w[0]));
    if words.len() == 1 {
        assert(t == w);
        let st0 = ScanState { mode: ParseMode::Token, token: seq![w[0]], ..scan_start() };
        assert(scan(t, 0) == Ok::<ScanState, LineError>(scan_start()));
        assert(scan(t, 1) == Ok::<ScanState, LineError>(st0));
        lemma_scan_bare_run(t, st0, 1, t.len());
        assert(seq![w[0]] + t.subrange(1, t.len() as int) =~= w);
        assert(words.drop_last() =~= Seq::<Seq<char>>::empty());
    } else {
        let prev = words.drop_last();
        let pg = gaps.drop_last();
        assert forall|i: int| 0 <= i < prev.len() implies is_bare_word(#[trigger] prev[i]) by {
            assert(prev[i] == words[i]);
        }
        assert forall|i: int| 0 <= i < pg.len() implies is_blank_run(#[trigger] pg[i]) by {
            assert(pg[i] == gaps[i]);
        }
        lemma_scan_gapped(prev, pg);
        let p = render_gapped(prev, pg);
        let g = gaps.last();
        assert(is_blank_run(g));
        let l: int = p.len() as int;
        let gl: int = g.len() as int;
        let rest = g + w;
        assert(t =~= p + rest);
        lemma_scan_prefix(p, rest, l as nat);
        let st1 = scan(p, l as nat)->Ok_0;
        assert(t[l] == g[0]);
        assert(is_white_space(g[0]));
        let st2 = ScanState { mode: ParseMode::ExpectToken, tokens: prev, ..st1 };
        assert(prev.drop_last().push(prev.last()) =~= prev);
        assert(scan(t, (l + 1) as nat) == Ok::<ScanState, LineError>(st2));
        assert forall|j: int| l + 1 <= j < l + gl implies is_white_space(#[trigger] t[j]) by {
            assert(t[j] == g[j - l]);
        }
        lemma_scan_blank_run(t, st2, (l + 1) as nat, (l + gl) as nat);
        assert(t[l + gl] == w[0]);
        let st3 = ScanState { mode: ParseMode::Token, token: seq![w[0]], ..st2 };
        assert(scan(t, (l + gl + 1) as nat) == Ok::<ScanState, LineError>(st3));
        assert forall|j: int| l + gl + 1 <= j < t.len() implies t[j] != '"' && !is_white_space(
            t[j],
        ) by {
            assert(t[j] == w[j - l - gl]);
        }
        lemma_scan_bare_run(t, st3, (l + gl + 1) as nat, t.len());
        assert(seq![w[0]] + t.subrange(l + gl + 1, t.len() as int) =~= w);
        assert(t[0] == p[0]);
    }
}

/// Trailing white space is dropped by trimming the end.
proof fn lemma_trim_end_drops_blank_tail(t: Seq<char>, tail: Seq<char>)
    requires
        forall|j: int| 0 <= j < tail.len() ==> is_white_space(#[trigger] tail[j]),
    ensures
        trim_end(t + tail) == trim_end(t),
    decreases tail.len(),
{
    if tail.len() > 0 {
        let d = tail.drop_last();
        assert((t + tail).drop_last() =~= t + d);
        assert((t + tail).last() == tail.last());
        assert(is_white_space(tail[tail.len() - 1]));
        assert forall|j: int| 0 <= j < d.len() implies is_white_space(#[trigger] d[j]) by {
            assert(d[j] == tail[j]);
        }
        lemma_trim_end_drops_blank_tail(t, d);
    } else {
        assert(t + tail =~= t);
    }
}

/// A text that starts and ends with non-blank characters, padded with white
/// space on either side, trims to itself.
proof fn lemma_trim_of_padded(lead: Seq<char>, t: Seq<char>, tail: Seq<char>)
    requires
        t.len() > 0,
        !is_white_space(t[0]),
        !is_white_space(t.last()),
        forall|j: int| 0 <= j < lead.len() ==> is_white_space(#[trigger] lead[j]),
        forall|j: int| 0 <= j < tail.len() ==> is_white_space(#[trigger] tail[j]),
    ensures
        trim(lead + t + tail) == t,
{
    let s = lead + t + tail;
    assert forall|j: int| 0 <= j < lead.len() implies is_white_space(#[trigger] s[j]) by {
        assert(s[j] == lead[j]);
    }
    lemma_trim_start_skips(s, lead.len() as int);
    let u = t + tail;
    assert(s.skip(lead.len() as int) =~= u);
    assert(u[0] == t[0]);
    assert(trim_start(u) == u);
    lemma_trim_end_drops_blank_tail(t, tail);
    assert(trim_end(t) == t);
}

/// Bare words separated by any non-empty runs of white space (spaces, tabs,
/// or a mix), with any white space before and after them, parse to exactly
/// those words, provided the first word does not start with `#`: the white
/// space between tokens belongs to no token.
pub proof fn law_tokens_split_at_any_white_space(
    lead: Seq<char>,
    words: Seq<Seq<char>>,
    gaps: Seq<Seq<char>>,
    tail: Seq<char>,
)
    requires
        words.len() >= 1,
        gaps.len() == words.len() - 1,
        forall|i: int| 0 <= i < words.len() ==> is_bare_word(#[trigger] words[i]),
        forall|i: int| 0 <= i < gaps.len() ==> is_blank_run(#[trigger] gaps[i]),
        forall|j: int| 0 <= j < lead.len() ==> is_white_space(#[trigger] lead[j]),
        forall|j: int| 0 <= j < tail.len() ==> is_white_space(#[trigger] tail[j]),
        words[0][0] != '#',
    ensures
        spec_parse_config_line(lead + render_gapped(words, gaps) + tail) == Ok::<
            LineView,
            LineError,
        >(LineView::Tokens(words)),
{
    lemma_scan_gapped(words, gaps);
    let t = render_gapped(words, gaps);
    let w = words.last();
    assert(is_bare_word(w));
    assert(is_bare_word(words[0]));
    assert(!is_white_space(w[w.len() - 1]));
    lemma_trim_of_padded(lead, t, tail);
    assert(words.drop_last().push(w) =~= words);
}

} // verus!

verus! {

/// Trimming the front drops some leading characters.
proof fn lemma_trim_start_is_suffix(s: Seq<char>) -> (k: int)
    ensures
        0 <= k <= s.len(),
        trim_start(s) == s.skip(k),
    decreases s.len(),
{
    if s.len() > 0 && is_white_space(s[0]) {
        let k1 = lemma_trim_start_is_suffix(s.drop_first());
        assert(s.drop_first().skip(k1) =~= s.skip(k1 + 1));
        k1 + 1
    } else {
        assert(s.skip(0) =~= s);
        0
    }
}

/// Trimming the end keeps some leading characters.
proof fn lemma_trim_end_is_prefix(s: Seq<char>) -> (k: int)
    ensures
        0 <= k <= s.len(),
        trim_end(s) == s.take(k),
    decreases s.len(),
{
    if s.len() > 0 && is_white_space(s.last()) {
        let k1 = lemma_trim_end_is_prefix(s.drop_last());
        assert(s.drop_last().take(k1) =~= s.take(k1));
        k1
    } else {
        assert(s.take(s.len() as int) =~= s);
        s.len() as int
    }
}

/// Every character of a trimmed text is a character of the text.
proof fn lemma_trim_within(s: Seq<char>, j: int)
    requires
        0 <= j < trim(s).len(),
    ensures
        exists|i: int| 0 <= i < s.len() && s[i] == trim(s)[j],
{
    let a = lemma_trim_start_is_suffix(s);
    let u = trim_start(s);
    let b = lemma_trim_end_is_prefix(u);
    assert(trim(s)[j] == u[j]);
    assert(u[j] == s[a + j]);
}

/// Every token read so far, and the token being read, is non-empty and holds
/// no white space, and no quote has been opened.
pub open spec fn unquoted_state(st: ScanState) -> bool {
    &&& !st.quoted
    &&& !st.escaping
    &&& forall|i: int| 0 <= i < st.tokens.len() ==> (#[trigger] st.tokens[i]).len() > 0
    &&& forall|i: int, j: int|
        0 <= i < st.tokens.len() && 0 <= j < st.tokens[i].len() ==> !is_white_space(
            #[trigger] st.tokens[i][j],
        )
    &&& forall|j: int| 0 <= j < st.token.len() ==> !is_white_space(#[trigger] st.token[j])
    &&& st.mode == ParseMode::Token ==> st.token.len() > 0
}

/// On a text without double quotes, the tokenizer only ever reads tokens
/// that are non-empty and free of white space.
proof fn lemma_scan_unquoted(t: Seq<char>, n: nat)
    requires
        n <= t.len(),
        forall|j: int| 0 <= j < t.len() ==> #[trigger] t[j] != '"',
    ensures
        scan(t, n) matches Ok(st) ==> unquoted_state(st),
    decreases n,
{
    if n > 0 {
        lemma_scan_unquoted(t, (n - 1) as nat);
        if let Ok(st) = scan(t, (n - 1) as nat) {
            let c = t[n - 1];
            assert(c != '"');
            if let Ok(st2) = scan_step(t, st, n - 1) {
                match st.mode {
                    ParseMode::ExpectToken => {
                        if !is_white_space(c) {
                            assert(st2.token == seq![c]);
                            assert(st2.tokens == st.tokens);
                        }
                    },
                    ParseMode::Token => {
                        if is_white_space(c) {
                            assert(st2.tokens == st.tokens.push(st.token));
                            assert forall|i: int, j: int|
                                0 <= i < st2.tokens.len() && 0 <= j < st2.tokens[i].len()
                                implies !is_white_space(#[trigger] st2.tokens[i][j]) by {
                                if i < st.tokens.len() {
                                    assert(st2.tokens[i] == st.tokens[i]);
                                } else {
                                    assert(st2.tokens[i] == st.token);
                                }
                            }
                            assert forall|i: int| 0 <= i < st2.tokens.len() implies (
                            #[trigger] st2.tokens[i]).len() > 0 by {
                                if i < st.tokens.len() {
                                    assert(st2.tokens[i] == st.tokens[i]);
                                }
                            }
                        } else {
                            assert(st2.token == st.token.push(c));
                            assert forall|j: int| 0 <= j < st2.token.len() implies !is_white_space(
                                #[trigger] st2.token[j],
                            ) by {
                                if j < st.token.len() {
                                    assert(st2.token[j] == st.token[j]);
                                }
                            }
                        }
                    },
                }
            }
        }
    }
}

/// A line without double quotes never yields an empty token or a token that
/// holds white space: white space only ever separates tokens, so a token can
/// start with white space only when a quote opened it.
pub proof fn law_unquoted_tokens_hold_no_white_space(line: Seq<char>)
    requires
        forall|j: int| 0 <= j < line.len() ==> #[trigger] line[j] != '"',
    ensures
        spec_parse_config_line(line) matches Ok(LineView::Tokens(ts)) ==> forall|i: int|
            0 <= i < ts.len() ==> (#[trigger] ts[i]).len() > 0 && forall|j: int|
                0 <= j < ts[i].len() ==> !is_white_space(#[trigger] ts[i][j]),
{
    let t = trim(line);
    assert forall|j: int| 0 <= j < t.len() implies #[trigger] t[j] != '"' by {
        lemma_trim_within(line, j);
    }
    lemma_scan_unquoted(t, t.len());
    if let Ok(LineView::Tokens(ts)) = spec_parse_config_line(line) {
        let st = scan(t, t.len())->Ok_0;
        assert(unquoted_state(st));
        if st.mode == ParseMode::Token {
            assert(ts == st.tokens.push(st.token));
            assert forall|i: int| 0 <= i < ts.len() implies (#[trigger] ts[i]).len() > 0
                && forall|j: int| 0 <= j < ts[i].len() ==> !is_white_space(#[trigger] ts[i][j]) by {
                if i < st.tokens.len() {
                    assert(ts[i] == st.tokens[i]);
                    assert forall|j: int| 0 <= j < ts[i].len() implies !is_white_space(
                        #[trigger] ts[i][j],
                    ) by {
                        assert(ts[i][j] == st.tokens[i][j]);
                    }
                } else {
                    assert(ts[i] == st.token);
                }
            }
        } else {
            assert(ts == st.tokens);
            assert forall|i: int| 0 <= i < ts.len() implies (#[trigger] ts[i]).len() > 0
                && forall|j: int| 0 <= j < ts[i].len() ==> !is_white_space(#[trigger] ts[i][j]) by {
                assert forall|j: int| 0 <= j < ts[i].len() implies !is_white_space(
                    #[trigger] ts[i][j],
                ) by {
                    assert(ts[i][j] == st.tokens[i][j]);
                }
            }
        }
    }
}

} // verus!

verus! {

/// A message is decoded only when its text is a line of tokens: the command
/// alone, which only `GET_SUBKEYS` may be, or a command and one parameter.
/// `GET_KEY` or `HAS_KEY` without a parameter is refused as an invalid command.
pub proof fn law_only_get_subkeys_comes_without_a_parameter(raw: Seq<u8>)
    ensures
        spec_decode_message(raw) matches Ok((cmd, None)) ==> {
            &&& cmd == "GET_SUBKEYS"@
            &&& valid_utf8(raw)
            &&& spec_parse_config_line(decode_utf8(raw)) == Ok::<LineView, LineError>(
                LineView::Tokens(seq![cmd]),
            )
        },
        spec_decode_message(raw) matches Ok((cmd, Some(p))) ==> {
            &&& (cmd == "GET_KEY"@ || cmd == "HAS_KEY"@ || cmd == "GET_SUBKEYS"@)
            &&& valid_utf8(raw)
            &&& spec_parse_config_line(decode_utf8(raw)) == Ok::<LineView, LineError>(
                LineView::Tokens(seq![cmd, p]),
            )
        },
        valid_utf8(raw) ==> (spec_parse_config_line(decode_utf8(raw)) matches Ok(
            LineView::Tokens(ts),
        ) && ts.len() == 1 && ts[0] != "GET_SUBKEYS"@ ==> spec_decode_message(raw) == Err::<
            (Seq<char>, Option<Seq<char>>),
            Seq<char>,
        >("invalid command"@)),
        valid_utf8(raw) ==> (spec_parse_config_line(decode_utf8(raw)) matches Ok(
            LineView::Tokens(ts),
        ) ==> (ts.len() == 1 && ts[0] == "GET_SUBKEYS"@ ==> spec_decode_message(raw) == Ok::<
            (Seq<char>, Option<Seq<char>>),
            Seq<char>,
        >((ts[0], None)))),
        valid_utf8(raw) ==> (spec_parse_config_line(decode_utf8(raw)) matches Ok(
            LineView::Tokens(ts),
        ) ==> (ts.len() == 2 && (ts[0] == "GET_KEY"@ || ts[0] == "HAS_KEY"@ || ts[0]
            == "GET_SUBKEYS"@) ==> spec_decode_message(raw) == Ok::<
            (Seq<char>, Option<Seq<char>>),
            Seq<char>,
        >((ts[0], Some(ts[1]))))),
        !valid_utf8(raw) ==> spec_decode_message(raw) == Err::<
            (Seq<char>, Option<Seq<char>>),
            Seq<char>,
        >("invalid utf8"@),
{
    if valid_utf8(raw) {
        if let Ok(LineView::Tokens(ts)) = spec_parse_config_line(decode_utf8(raw)) {
            if ts.len() == 1 {
                assert(ts =~= seq![ts[0]]);
            } else if ts.len() == 2 {
                assert(ts =~= seq![ts[0], ts[1]]);
            }
        }
    }
}

/// A text without a `.`, then a `.` and a key, splits into the text and the key.
proof fn lemma_dotsplit_at_name(inst: Seq<char>, key: Seq<char>)
    requires
        !inst.contains('.'),
    ensures
        spec_dotsplit(inst + seq!['.'] + key) == (inst, Some(key)),
{
    let s = inst + seq!['.'] + key;
    let n: int = inst.len() as int;
    assert(s[n] == '.');
    assert forall|j: int| 0 <= j < n implies s[j] != '.' by {
        assert(s[j] == inst[j]);
    }
    assert(is_first_dot(s, n));
    assert(s.contains('.'));
    let i: int = choose|i: int| is_first_dot(s, i);
    if i < n {
        assert(s[i] == inst[i]);
    }
    assert(i == n);
    assert(s.take(n) =~= inst);
    assert(s.skip(n + 1) =~= key);
}

/// A request that names a registered instrument reaches that instrument,
/// wherever its name stands among the registered names: `inst.key` asks it
/// for `key`, and `GET_SUBKEYS` with `inst` or `inst.root` asks it for its
/// subkeys.
pub proof fn law_registered_instrument_is_found(
    names: Seq<Seq<char>>,
    i: int,
    inst: Seq<char>,
    key: Seq<char>,
)
    requires
        0 <= i < names.len(),
        names[i] == inst,
        !inst.contains('.'),
    ensures
        spec_handle_request("GET_KEY"@, Some(inst + seq!['.'] + key), names) == PlanView::GetKey(
            inst,
            key,
        ),
        spec_handle_request("HAS_KEY"@, Some(inst + seq!['.'] + key), names) == PlanView::HasKey(
            inst,
            key,
        ),
        spec_handle_request("GET_SUBKEYS"@, Some(inst + seq!['.'] + key), names)
            == PlanView::GetSubkeys(inst, Some(key)),
        spec_handle_request("GET_SUBKEYS"@, Some(inst), names) == PlanView::GetSubkeys(
            inst,
            None,
        ),
{
    lemma_dotsplit_at_name(inst, key);
    assert(names.contains(inst));
    assert(spec_dotsplit(inst) == (inst, None::<Seq<char>>));
    assert("GET_KEY"@ != "HAS_KEY"@) by {
        reveal_strlit("GET_KEY");
        reveal_strlit("HAS_KEY");
        assert("GET_KEY"@[0] != "HAS_KEY"@[0]);
    }
    assert("GET_SUBKEYS"@ != "HAS_KEY"@ && "GET_SUBKEYS"@ != "GET_KEY"@) by {
        reveal_strlit("GET_KEY");
        reveal_strlit("HAS_KEY");
        reveal_strlit("GET_SUBKEYS");
        assert("GET_SUBKEYS"@.len() != "HAS_KEY"@.len());
        assert("GET_SUBKEYS"@.len() != "GET_KEY"@.len());
    }
}

/// `GET_SUBKEYS` without a parameter lists the registered instruments,
/// whichever they are, and a command that is none of the protocol's three is
/// answered `null`, whatever its parameter.
pub proof fn law_other_requests(cmd: Seq<char>, param: Option<Seq<char>>, names: Seq<Seq<char>>)
    ensures
        spec_handle_request("GET_SUBKEYS"@, None, names) == PlanView::ListInstruments,
        cmd != "GET_KEY"@ && cmd != "HAS_KEY"@ && cmd != "GET_SUBKEYS"@ ==> spec_handle_request(
            cmd,
            param,
            names,
        ) == PlanView::Null,
{
    assert("GET_SUBKEYS"@ != "HAS_KEY"@ && "GET_SUBKEYS"@ != "GET_KEY"@) by {
        reveal_strlit("GET_KEY");
        reveal_strlit("HAS_KEY");
        reveal_strlit("GET_SUBKEYS");
        assert("GET_SUBKEYS"@.len() != "HAS_KEY"@.len());
        assert("GET_SUBKEYS"@.len() != "GET_KEY"@.len());
    }
}

/// When the configuration file exists, the configuration is exactly what
/// reading its lines gives, whatever the environment variable holds: it loads
/// only when every line is blank, a comment or a line of two tokens, each
/// option then set by the last line that names it, and otherwise the error
/// names the first refused line. Without a file, the environment variable's
/// value is read as `;`-separated lines; with neither, there are no options.
pub proof fn law_config_file_is_read_line_by_line(
    env_value: Option<Seq<char>>,
    lines: Seq<Seq<char>>,
)
    ensures
        spec_load_config(env_value, Some(lines)) == spec_parse_config_lines(lines),
        spec_load_config(env_value, Some(lines)) is Ok <==> all_accepted(lines, lines.len() as int),
        all_accepted(lines, lines.len() as int) ==> forall|k: Seq<char>|
            #![trigger spec_load_config(env_value, Some(lines))->Ok_0.dom().contains(k)]
            spec_load_config(env_value, Some(lines))->Ok_0.dom().contains(k) <==> exists|i: int|
                0 <= i < lines.len() && #[trigger] line_sets(lines[i], k),
        all_accepted(lines, lines.len() as int) ==> forall|k: Seq<char>, i: int|
            #[trigger] last_setter(lines, lines.len() as int, k, i) ==> spec_load_config(
                env_value,
                Some(lines),
            )->Ok_0[k] == line_value(lines[i]),
        forall|i: int|
            #[trigger] first_refused(lines, i) ==> spec_load_config(env_value, Some(lines)) == Err::<
                Map<Seq<char>, Seq<char>>,
                Seq<char>,
            >(line_fault_text(i as nat, line_refusal(lines[i]))),
        forall|v: Seq<char>|
            #[trigger] spec_load_config(Some(v), None) == spec_parse_config_lines(split_on(v, ';')),
        spec_load_config(None, None) == Ok::<Map<Seq<char>, Seq<char>>, Seq<char>>(Map::empty()),
{
    law_config_lines_read_line_by_line(lines);
}

} // verus!

verus! {

/// Whether `e` is a way to write the character `c` inside a quoted token:
/// as itself when it is neither a quote nor a backslash; behind a backslash
/// when it is not `n`, `t` or `r`; or, for a newline, a tab and a carriage
/// return, as `\n`, `\t` and `\r`.
pub open spec fn writes_char(e: Seq<char>, c: char) -> bool {
    ||| (e == seq![c] && c != '"' && c != '\\')
    ||| (e == seq!['\\', c] && c != 'n' && c != 't' && c != 'r')
    ||| (c == '\n' && e == seq!['\\', 'n'])
    ||| (c == '\t' && e == seq!['\\', 't'])
    ||| (c == '\r' && e == seq!['\\', 'r'])
}

/// The pieces written one after the other.
pub open spec fn concat(pieces: Seq<Seq<char>>) -> Seq<char>
    decreases pieces.len(),
{
    if pieces.len() == 0 {
        Seq::<char>::empty()
    } else {
        concat(pieces.drop_last()) + pieces.last()
    }
}

/// Inside a quoted token, a written text adds the characters it writes to the token.
proof fn lemma_scan_written(
    t: Seq<char>,
    st: ScanState,
    a: int,
    tok: Seq<char>,
    encs: Seq<Seq<char>>,
)
    requires
        0 <= a,
        encs.len() == tok.len(),
        forall|i: int| 0 <= i < tok.len() ==> writes_char(#[trigger] encs[i], tok[i]),
        a + concat(encs).len() <= t.len(),
        t.subrange(a, a + concat(encs).len()) == concat(encs),
        scan(t, a as nat) == Ok::<ScanState, LineError>(st),
        st.mode == ParseMode::Token,
        st.quoted,
        !st.escaping,
    ensures
        scan(t, (a + concat(encs).len()) as nat) == Ok::<ScanState, LineError>(
            ScanState { token: st.token + tok, ..st },
        ),
    decreases tok.len(),
{
    if tok.len() == 0 {
        assert(st.token + tok =~= st.token);
    } else {
        let prev = tok.drop_last();
        let pe = encs.drop_last();
        let c = tok.last();
        let e = encs.last();
        assert(writes_char(encs[tok.len() - 1], tok[tok.len() - 1]));
        assert forall|i: int| 0 <= i < prev.len() implies writes_char(#[trigger] pe[i], prev[i]) by {
            assert(pe[i] == encs[i]);
            assert(prev[i] == tok[i]);
        }
        let all = concat(encs);
        let ep = concat(pe);
        let el: int = all.len() as int;
        let pl: int = ep.len() as int;
        assert(all == ep + e);
        let m: int = a + pl;
        let w = t.subrange(a, a + el);
        assert(t.subrange(a, m) =~= ep) by {
            assert forall|j: int| 0 <= j < pl implies t.subrange(a, m)[j] == ep[j] by {
                assert(w[j] == all[j]);
            }
        }
        lemma_scan_written(t, st, a, prev, pe);
        let mid = ScanState { token: st.token + prev, ..st };
        assert(t[m] == e[0]) by {
            assert(w[pl] == all[pl]);
        }
        assert(st.token + tok =~= mid.token.push(c));
        if e.len() == 1 {
            assert(t[m] == c);
            assert(scan(t, (m + 1) as nat) == Ok::<ScanState, LineError>(
                ScanState { token: st.token + tok, ..st },
            ));
        } else {
            assert(e.len() == 2);
            assert(t[m] == '\\');
            assert(t[m + 1] == e[1]) by {
                assert(w[pl + 1] == all[pl + 1]);
            }
            let esc = ScanState { escaping: true, ..mid };
            assert(scan(t, (m + 1) as nat) == Ok::<ScanState, LineError>(esc));
            assert(unescape(e[1]) == c);
            assert(scan(t, (m + 2) as nat) == Ok::<ScanState, LineError>(
                ScanState { token: st.token + tok, ..st },
            ));
        }
    }
}

/// Inside double quotes, every character reads as what it writes: a
/// backslash makes the next character stand for itself (a quote, a
/// backslash, or any other), except that `\n`, `\t` and `\r` stand for a
/// newline, a tab and a carriage return. However a text is written so, the
/// line reads as that one text.
pub proof fn law_quoted_token_reads_what_it_writes(tok: Seq<char>, encs: Seq<Seq<char>>)
    requires
        encs.len() == tok.len(),
        forall|i: int| 0 <= i < tok.len() ==> writes_char(#[trigger] encs[i], tok[i]),
    ensures
        spec_parse_config_line(seq!['"'] + concat(encs) + seq!['"']) == Ok::<LineView, LineError>(
            LineView::Tokens(seq![tok]),
        ),
{
    let body = concat(encs);
    let t = seq!['"'] + body + seq!['"'];
    let bl: int = body.len() as int;
    assert(t[0] == '"');
    assert(t.last() == '"');
    lemma_trim_of_unpadded(t);
    let open = ScanState {
        mode: ParseMode::Token,
        quoted: true,
        escaping: false,
        token: seq![],
        ..scan_start()
    };
    assert(scan(t, 0) == Ok::<ScanState, LineError>(scan_start()));
    assert(scan(t, 1) == Ok::<ScanState, LineError>(open));
    assert(t.subrange(1, 1 + bl) =~= body);
    lemma_scan_written(t, open, 1, tok, encs);
    assert(t[1 + bl] == '"');
    assert(Seq::<char>::empty() + tok =~= tok);
    assert(Seq::<Seq<char>>::empty().push(tok) =~= seq![tok]);
}

} // verus!
