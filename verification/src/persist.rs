//! The persisted form of the client color mapping.
//!
//! The mapping is kept on disk as a single JSON object: the client/color
//! pairs in first-seen order under `"colors"`, then the next palette index
//! under `"next_color_index"`.  Names and colors are written as JSON strings
//! with `"` and `\` escaped.  The decoder accepts exactly this shape; on any
//! other input the caller falls back to a fresh mapping, which is the
//! expected first-run state.  The index is re-derived from the entry count on
//! reload, so a reloaded mapping is always well formed.

use crate::colors::{spec_default_palette, Client, ClientColorMap, ColorMapModel};
use vstd::prelude::*;
use vstd::string::StrSliceExecFns;

verus! {

/// Directory that holds the durable state.
pub const DATA_DIR: &'static str = "database";

/// Name of the file that holds the persisted client color mapping.
pub const CLIENT_COLORS_FILE_NAME: &'static str = "client_colors.json";

/// The path of the mapping file: the colors file inside the data directory.
pub fn get_client_colors_path() -> (p: String)
    ensures
        p@ == DATA_DIR@ + "/"@ + CLIENT_COLORS_FILE_NAME@,
{
    let mut p = DATA_DIR.to_owned();
    p.append("/");
    p.append(CLIENT_COLORS_FILE_NAME);
    p
}

/// Whether `c` must be escaped inside a persisted string.
pub open spec fn is_esc_char(c: char) -> bool {
    c == '"' || c == '\\'
}

/// The escaped form of one character.
pub open spec fn esc_char(c: char) -> Seq<char> {
    if is_esc_char(c) {
        seq!['\\', c]
    } else {
        seq![c]
    }
}

/// The escaped form of a string body.
pub open spec fn esc(s: Seq<char>) -> Seq<char>
    decreases s.len(),
{
    if s.len() == 0 {
        Seq::empty()
    } else {
        esc_char(s[0]) + esc(s.skip(1))
    }
}

/// A quoted, escaped string.
pub open spec fn enc_string(s: Seq<char>) -> Seq<char> {
    seq!['"'] + esc(s) + seq!['"']
}

/// One `"name":"color"` pair.
pub open spec fn enc_entry(e: (Seq<char>, Seq<char>)) -> Seq<char> {
    enc_string(e.0) + seq![':'] + enc_string(e.1)
}

/// The second and later pairs, each preceded by a comma.
pub open spec fn enc_entries_tail(es: Seq<(Seq<char>, Seq<char>)>) -> Seq<char>
    decreases es.len(),
{
    if es.len() == 0 {
        Seq::empty()
    } else {
        seq![','] + enc_entry(es[0]) + enc_entries_tail(es.skip(1))
    }
}

/// The comma-separated pair list.
pub open spec fn enc_entries(es: Seq<(Seq<char>, Seq<char>)>) -> Seq<char> {
    if es.len() == 0 {
        Seq::empty()
    } else {
        enc_entry(es[0]) + enc_entries_tail(es.skip(1))
    }
}

/// The decimal digit character for `n` (meaningful for `n < 10`).
pub open spec fn spec_digit_char(n: nat) -> char {
    if n == 0 {
        '0'
    } else if n == 1 {
        '1'
    } else if n == 2 {
        '2'
    } else if n == 3 {
        '3'
    } else if n == 4 {
        '4'
    } else if n == 5 {
        '5'
    } else if n == 6 {
        '6'
    } else if n == 7 {
        '7'
    } else if n == 8 {
        '8'
    } else {
        '9'
    }
}

/// Whether `c` is a decimal digit character.
pub open spec fn is_digit(c: char) -> bool {
    ||| c == '0'
    ||| c == '1'
    ||| c == '2'
    ||| c == '3'
    ||| c == '4'
    ||| c == '5'
    ||| c == '6'
    ||| c == '7'
    ||| c == '8'
    ||| c == '9'
}

/// The decimal digits of `n`, most significant first.
pub open spec fn enc_index(n: nat) -> Seq<char>
    decreases n,
{
    if n < 10 {
        seq![spec_digit_char(n)]
    } else {
        enc_index(n / 10) + seq![spec_digit_char(n % 10)]
    }
}

/// The opening of the persisted object, up to and including the brace of the
/// inner `"colors"` object.
pub open spec fn file_header() -> Seq<char> {
    seq!['{', '"', 'c', 'o', 'l', 'o', 'r', 's', '"', ':', '{']
}

/// The `"next_color_index"` key with its separators, as it follows the
/// closing brace of the inner object.
pub open spec fn file_index_key() -> Seq<char> {
    seq![',', '"', 'n', 'e', 'x', 't', '_', 'c', 'o', 'l', 'o', 'r', '_', 'i', 'n', 'd', 'e', 'x', '"', ':']
}

/// The full persisted form of an allocator state.
pub open spec fn spec_encode_color_map(m: ColorMapModel) -> Seq<char> {
    file_header() + enc_entries(m.colors) + seq!['}'] + file_index_key() + enc_index(
        m.next_color_index,
    ) + seq!['}']
}

/// Relies on `String::from_iter` over `char`: collecting characters yields
/// the string of exactly those characters in order.
#[verifier::external_body]
fn chars_into_string(v: &Vec<char>) -> (s: String)
    ensures
        s@ == v@,
{
    v.iter().collect()
}

/// The characters of `s`, in order.
fn str_chars(s: &str) -> (v: Vec<char>)
    ensures
        v@ == s@,
{
    let len = s.unicode_len();
    let mut v: Vec<char> = Vec::new();
    let mut i: usize = 0;
    while i < len
        invariant
            i <= len,
            len == s@.len(),
            v@ == s@.take(i as int),
        decreases len - i,
    {
        let c = s.get_char(i);
        v.push(c);
        proof {
            assert(v@ =~= s@.take(i + 1));
        }
        i += 1;
    }
    proof {
        assert(s@.take(len as int) =~= s@);
    }
    v
}

/// Escaping distributes over appending one character.
proof fn lemma_esc_push(s: Seq<char>, c: char)
    ensures
        esc(s.push(c)) == esc(s) + esc_char(c),
    decreases s.len(),
{
    let p = s.push(c);
    if s.len() == 0 {
        assert(p[0] == c);
        assert(p.skip(1) =~= Seq::<char>::empty());
        assert(esc(p) == esc_char(c) + esc(Seq::<char>::empty()));
        assert(esc(Seq::<char>::empty()) =~= Seq::<char>::empty());
        assert(esc(s) =~= Seq::<char>::empty());
        assert(esc_char(c) + Seq::<char>::empty() =~= esc_char(c));
        assert(Seq::<char>::empty() + esc_char(c) =~= esc_char(c));
    } else {
        assert(p[0] == s[0]);
        assert(p.skip(1) =~= s.skip(1).push(c));
        lemma_esc_push(s.skip(1), c);
        assert(esc(p) == esc_char(s[0]) + esc(s.skip(1).push(c)));
        assert(esc(s) == esc_char(s[0]) + esc(s.skip(1)));
        assert(esc_char(s[0]) + (esc(s.skip(1)) + esc_char(c)) =~= (esc_char(s[0]) + esc(
        s.skip(1))) + esc_char(c));
    }
}

/// Appends the escaped form of `s` to `out`.
fn escape_into(s: &String, out: &mut Vec<char>)
    ensures
        final(out)@ == old(out)@ + esc(s@),
{
    let text = s.as_str();
    let len = text.unicode_len();
    let mut i: usize = 0;
    while i < len
        invariant
            i <= len,
            len == s@.len(),
            text@ == s@,
            out@ == old(out)@ + esc(s@.take(i as int)),
        decreases len - i,
    {
        let c = text.get_char(i);
        if c == '"' || c == '\\' {
            out.push('\\');
            out.push(c);
        } else {
            out.push(c);
        }
        proof {
            assert(s@.take(i + 1) =~= s@.take(i as int).push(s@[i as int]));
            lemma_esc_push(s@.take(i as int), s@[i as int]);
            assert(out@ =~= old(out)@ + esc(s@.take(i + 1)));
        }
        i += 1;
    }
    proof {
        assert(s@.take(len as int) =~= s@);
    }
}

/// Appends the quoted, escaped form of `s` to `out`.
fn encode_string_into(s: &String, out: &mut Vec<char>)
    ensures
        final(out)@ == old(out)@ + enc_string(s@),
{
    out.push('"');
    escape_into(s, out);
    out.push('"');
    proof {
        assert(out@ =~= old(out)@ + enc_string(s@));
    }
}

/// Appends one `"name":"color"` pair to `out`.
fn encode_entry_into(name: &String, color: &String, out: &mut Vec<char>)
    ensures
        final(out)@ == old(out)@ + enc_entry((name@, color@)),
{
    encode_string_into(name, out);
    out.push(':');
    encode_string_into(color, out);
    proof {
        assert(out@ =~= old(out)@ + enc_entry((name@, color@)));
    }
}

/// The pairs of `map` from position `k` on, each preceded by a comma.
fn encode_entries_tail(map: &ClientColorMap, k: usize) -> (out: Vec<char>)
    requires
        k <= map@.colors.len(),
    ensures
        out@ == enc_entries_tail(map@.colors.skip(k as int)),
    decreases map@.colors.len() - k,
{
    if k >= map.client_count() {
        let out: Vec<char> = Vec::new();
        proof {
            assert(map@.colors.skip(k as int) =~= Seq::<(Seq<char>, Seq<char>)>::empty());
        }
        out
    } else {
        let mut out: Vec<char> = Vec::new();
        out.push(',');
        encode_entry_into(map.client_name_at(k), map.client_color_at(k), &mut out);
        let mut rest = encode_entries_tail(map, k + 1);
        out.append(&mut rest);
        proof {
            let es = map@.colors.skip(k as int);
            assert(es[0] == map@.colors[k as int]);
            assert(es.skip(1) =~= map@.colors.skip(k + 1));
            assert(out@ =~= enc_entries_tail(es));
        }
        out
    }
}

/// The comma-separated pair list of `map`.
fn encode_entries(map: &ClientColorMap) -> (out: Vec<char>)
    ensures
        out@ == enc_entries(map@.colors),
{
    if map.client_count() == 0 {
        let out: Vec<char> = Vec::new();
        out
    } else {
        let mut out: Vec<char> = Vec::new();
        encode_entry_into(map.client_name_at(0), map.client_color_at(0), &mut out);
        let mut rest = encode_entries_tail(map, 1);
        out.append(&mut rest);
        proof {
            assert(map@.colors[0] == (map@.colors.skip(0).index(0)));
            assert(out@ =~= enc_entries(map@.colors));
        }
        out
    }
}

/// The decimal digit character for `d`.
fn digit_char(d: usize) -> (c: char)
    requires
        d < 10,
    ensures
        c == spec_digit_char(d as nat),
{
    if d == 0 {
        '0'
    } else if d == 1 {
        '1'
    } else if d == 2 {
        '2'
    } else if d == 3 {
        '3'
    } else if d == 4 {
        '4'
    } else if d == 5 {
        '5'
    } else if d == 6 {
        '6'
    } else if d == 7 {
        '7'
    } else if d == 8 {
        '8'
    } else {
        '9'
    }
}

/// The decimal digits of `n`, most significant first.
fn encode_index(n: usize) -> (out: Vec<char>)
    ensures
        out@ == enc_index(n as nat),
    decreases n,
{
    if n < 10 {
        let mut out: Vec<char> = Vec::new();
        out.push(digit_char(n));
        proof {
            assert(out@ =~= enc_index(n as nat));
        }
        out
    } else {
        let mut out = encode_index(n / 10);
        out.push(digit_char(n % 10));
        proof {
            assert(out@ =~= enc_index(n as nat));
        }
        out
    }
}

/// The characters of `file_header()`.
fn header_chars() -> (out: Vec<char>)
    ensures
        out@ == file_header(),
{
    let mut out: Vec<char> = Vec::new();
    out.push('{');
    out.push('"');
    out.push('c');
    out.push('o');
    out.push('l');
    out.push('o');
    out.push('r');
    out.push('s');
    out.push('"');
    out.push(':');
    out.push('{');
    proof {
        assert(out@ =~= file_header());
    }
    out
}

/// The characters of `file_index_key()`.
fn index_key_chars() -> (out: Vec<char>)
    ensures
        out@ == file_index_key(),
{
    let mut out: Vec<char> = Vec::new();
    out.push(',');
    out.push('"');
    out.push('n');
    out.push('e');
    out.push('x');
    out.push('t');
    out.push('_');
    out.push('c');
    out.push('o');
    out.push('l');
    out.push('o');
    out.push('r');
    out.push('_');
    out.push('i');
    out.push('n');
    out.push('d');
    out.push('e');
    out.push('x');
    out.push('"');
    out.push(':');
    proof {
        assert(out@ =~= file_index_key());
    }
    out
}

/// Parses a string body after its opening quote: the unescaped content and
/// the text after the closing quote.
pub open spec fn p_str_body(s: Seq<char>) -> Option<(Seq<char>, Seq<char>)>
    decreases s.len(),
{
    if s.len() == 0 {
        None
    } else if s[0] == '"' {
        Some((Seq::empty(), s.skip(1)))
    } else if s[0] == '\\' {
        if s.len() >= 2 && is_esc_char(s[1]) {
            match p_str_body(s.skip(2)) {
                Some((c, r)) => Some((seq![s[1]] + c, r)),
                None => None,
            }
        } else {
            None
        }
    } else {
        match p_str_body(s.skip(1)) {
            Some((c, r)) => Some((seq![s[0]] + c, r)),
            None => None,
        }
    }
}

/// Parses one `"name":"color"` pair.
pub open spec fn p_entry(s: Seq<char>) -> Option<((Seq<char>, Seq<char>), Seq<char>)> {
    if s.len() >= 1 && s[0] == '"' {
        match p_str_body(s.skip(1)) {
            Some((name, r1)) => {
                if r1.len() >= 2 && r1[0] == ':' && r1[1] == '"' {
                    match p_str_body(r1.skip(2)) {
                        Some((color, r2)) => Some(((name, color), r2)),
                        None => None,
                    }
                } else {
                    None
                }
            },
            None => None,
        }
    } else {
        None
    }
}

/// A successful string parse consumes at least the closing quote.
proof fn lemma_p_str_body_shrinks(s: Seq<char>)
    ensures
        p_str_body(s) matches Some(p) ==> p.1.len() < s.len(),
    decreases s.len(),
{
    if s.len() == 0 {
    } else if s[0] == '"' {
    } else if s[0] == '\\' {
        if s.len() >= 2 && is_esc_char(s[1]) {
            lemma_p_str_body_shrinks(s.skip(2));
        }
    } else {
        lemma_p_str_body_shrinks(s.skip(1));
    }
}

/// A successful pair parse consumes at least one character.
proof fn lemma_p_entry_shrinks(s: Seq<char>)
    ensures
        p_entry(s) matches Some(p) ==> p.1.len() < s.len(),
{
    if s.len() >= 1 && s[0] == '"' {
        lemma_p_str_body_shrinks(s.skip(1));
        match p_str_body(s.skip(1)) {
            Some((name, r1)) => {
                lemma_p_str_body_shrinks(r1.skip(2));
            },
            None => {},
        }
    }
}

/// Parses `, pair` repetitions up to and including the closing brace of the
/// inner object.
pub open spec fn p_entries_rest(s: Seq<char>) -> Option<
    (Seq<(Seq<char>, Seq<char>)>, Seq<char>),
>
    decreases s.len(),
    via p_entries_rest_decreases
{
    if s.len() >= 1 && s[0] == '}' {
        Some((Seq::empty(), s.skip(1)))
    } else if s.len() >= 1 && s[0] == ',' {
        match p_entry(s.skip(1)) {
            Some((e, r)) => match p_entries_rest(r) {
                Some((es, r2)) => Some((seq![e] + es, r2)),
                None => None,
            },
            None => None,
        }
    } else {
        None
    }
}

#[via_fn]
proof fn p_entries_rest_decreases(s: Seq<char>) {
    if s.len() >= 1 && s[0] == ',' {
        lemma_p_entry_shrinks(s.skip(1));
    }
}

/// Parses the inner object's pair list up to and including its closing
/// brace.
pub open spec fn p_entries(s: Seq<char>) -> Option<(Seq<(Seq<char>, Seq<char>)>, Seq<char>)> {
    if s.len() >= 1 && s[0] == '}' {
        Some((Seq::empty(), s.skip(1)))
    } else {
        match p_entry(s) {
            Some((e, r)) => match p_entries_rest(r) {
                Some((es, r2)) => Some((seq![e] + es, r2)),
                None => None,
            },
            None => None,
        }
    }
}

/// Drops a leading run of decimal digits.
pub open spec fn skip_digits(s: Seq<char>) -> Seq<char>
    decreases s.len(),
{
    if s.len() >= 1 && is_digit(s[0]) {
        skip_digits(s.skip(1))
    } else {
        s
    }
}

/// Parses the whole persisted mapping: the client/color pairs in order.
/// The recorded index is only checked for digit shape; it is re-derived from
/// the entry count on reload.
pub open spec fn spec_parse_color_file(s: Seq<char>) -> Option<Seq<(Seq<char>, Seq<char>)>> {
    if s.len() >= 11 && s.take(11) == file_header() {
        match p_entries(s.skip(11)) {
            Some((es, r)) => {
                if r.len() >= 20 && r.take(20) == file_index_key() {
                    let r2 = r.skip(20);
                    if r2.len() >= 1 && is_digit(r2[0]) && skip_digits(r2) == seq!['}'] {
                        Some(es)
                    } else {
                        None
                    }
                } else {
                    None
                }
            },
            None => None,
        }
    } else {
        None
    }
}

/// Pairwise-distinct client names.
pub open spec fn distinct_names(es: Seq<(Seq<char>, Seq<char>)>) -> bool {
    forall|p: int, q: int| 0 <= p < q < es.len() ==> es[p].0 != es[q].0
}

/// Whether `c` is a decimal digit character.
fn is_digit_exec(c: char) -> (r: bool)
    ensures
        r == is_digit(c),
{
    c == '0' || c == '1' || c == '2' || c == '3' || c == '4' || c == '5' || c == '6' || c == '7'
        || c == '8' || c == '9'
}

/// Whether `pat` occurs in `v` starting at position `i`.
fn match_at(v: &Vec<char>, i: usize, pat: &Vec<char>) -> (r: bool)
    requires
        i <= v@.len(),
    ensures
        r == (i + pat@.len() <= v@.len() && v@.subrange(i as int, i + pat@.len()) == pat@),
{
    let n = pat.len();
    let vlen = v.len();
    if vlen - i < n {
        return false;
    }
    let mut k: usize = 0;
    while k < n
        invariant
            k <= n,
            i + n <= vlen,
            vlen == v@.len(),
            n == pat@.len(),
            forall|m: int| 0 <= m < k ==> v@[i + m] == pat@[m],
        decreases n - k,
    {
        if v[i + k] != pat[k] {
            proof {
                assert(v@.subrange(i as int, i + pat@.len())[k as int] != pat@[k as int]);
            }
            return false;
        }
        k += 1;
    }
    proof {
        assert(v@.subrange(i as int, i + pat@.len()) =~= pat@);
    }
    true
}

/// Exec mirror of `p_str_body`, reading `v` from position `i`.
fn parse_str_body_exec(v: &Vec<char>, i: usize) -> (r: Option<(Vec<char>, usize)>)
    requires
        i <= v@.len(),
    ensures
        match r {
            Some((c, j)) => {
                &&& i < j <= v@.len()
                &&& p_str_body(v@.skip(i as int)) == Some((c@, v@.skip(j as int)))
            },
            None => p_str_body(v@.skip(i as int)) is None,
        },
    decreases v@.len() - i,
{
    let ghost s = v@.skip(i as int);
    if i >= v.len() {
        return None;
    }
    let c = v[i];
    proof {
        assert(s[0] == c);
    }
    if c == '"' {
        let out: Vec<char> = Vec::new();
        proof {
            assert(s.skip(1) =~= v@.skip(i + 1));
            assert(out@ =~= Seq::<char>::empty());
        }
        return Some((out, i + 1));
    }
    if c == '\\' {
        if i + 1 < v.len() {
            let e = v[i + 1];
            proof {
                assert(s[1] == e);
                assert(s.skip(2) =~= v@.skip(i + 2));
            }
            if e == '"' || e == '\\' {
                match parse_str_body_exec(v, i + 2) {
                    Some((content, j)) => {
                        let ghost tail_view = content@;
                        let mut content = content;
                        content.insert(0, e);
                        proof {
                            assert(content@ =~= seq![e] + tail_view);
                        }
                        Some((content, j))
                    },
                    None => None,
                }
            } else {
                None
            }
        } else {
            None
        }
    } else {
        match parse_str_body_exec(v, i + 1) {
            Some((content, j)) => {
                let ghost tail_view = content@;
                let mut content = content;
                content.insert(0, c);
                proof {
                    assert(s.skip(1) =~= v@.skip(i + 1));
                    assert(content@ =~= seq![c] + tail_view);
                }
                Some((content, j))
            },
            None => {
                proof {
                    assert(s.skip(1) =~= v@.skip(i + 1));
                }
                None
            },
        }
    }
}

/// Exec mirror of `p_entry`: one client/color pair.
fn parse_entry_exec(v: &Vec<char>, i: usize) -> (r: Option<(Client, usize)>)
    requires
        i <= v@.len(),
    ensures
        match r {
            Some((c, j)) => {
                &&& i < j <= v@.len()
                &&& p_entry(v@.skip(i as int)) == Some(((c.name@, c.color@), v@.skip(j as int)))
            },
            None => p_entry(v@.skip(i as int)) is None,
        },
{
    let ghost s = v@.skip(i as int);
    if i >= v.len() {
        return None;
    }
    proof {
        assert(s[0] == v@[i as int]);
    }
    if v[i] != '"' {
        return None;
    }
    proof {
        assert(s.skip(1) =~= v@.skip(i + 1));
    }
    match parse_str_body_exec(v, i + 1) {
        Some((name_chars, j1)) => {
            let ghost r1 = v@.skip(j1 as int);
            if v.len() - j1 >= 2 {
                proof {
                    assert(r1[0] == v@[j1 as int]);
                    assert(r1[1] == v@[j1 + 1]);
                }
                if v[j1] == ':' && v[j1 + 1] == '"' {
                    proof {
                        assert(r1.skip(2) =~= v@.skip(j1 + 2));
                    }
                    match parse_str_body_exec(v, j1 + 2) {
                        Some((color_chars, j2)) => {
                            let name = chars_into_string(&name_chars);
                            let color = chars_into_string(&color_chars);
                            Some((Client { name, color }, j2))
                        },
                        None => None,
                    }
                } else {
                    None
                }
            } else {
                proof {
                    assert(r1.len() < 2);
                }
                None
            }
        },
        None => None,
    }
}

/// Exec mirror of `p_entries_rest`.
fn parse_entries_rest_exec(v: &Vec<char>, i: usize) -> (r: Option<(Vec<Client>, usize)>)
    requires
        i <= v@.len(),
    ensures
        match r {
            Some((es, j)) => {
                &&& i < j <= v@.len()
                &&& p_entries_rest(v@.skip(i as int)) == Some(
                    (es@.map_values(|c: Client| (c.name@, c.color@)), v@.skip(j as int)),
                )
            },
            None => p_entries_rest(v@.skip(i as int)) is None,
        },
    decreases v@.len() - i,
{
    let ghost s = v@.skip(i as int);
    if i >= v.len() {
        return None;
    }
    proof {
        assert(s[0] == v@[i as int]);
    }
    if v[i] == '}' {
        let out: Vec<Client> = Vec::new();
        proof {
            assert(s.skip(1) =~= v@.skip(i + 1));
            assert(out@.map_values(|c: Client| (c.name@, c.color@)) =~= Seq::<
                (Seq<char>, Seq<char>),
            >::empty());
        }
        return Some((out, i + 1));
    }
    if v[i] != ',' {
        return None;
    }
    proof {
        assert(s.skip(1) =~= v@.skip(i + 1));
    }
    match parse_entry_exec(v, i + 1) {
        Some((e, j)) => {
            match parse_entries_rest_exec(v, j) {
                Some((es, k)) => {
                    let ghost tail_views = es@.map_values(|c: Client| (c.name@, c.color@));
                    let ghost e_pair = (e.name@, e.color@);
                    let mut es = es;
                    es.insert(0, e);
                    proof {
                        assert(es@.map_values(|c: Client| (c.name@, c.color@)) =~= seq![e_pair]
                            + tail_views);
                    }
                    Some((es, k))
                },
                None => None,
            }
        },
        None => None,
    }
}

/// Exec mirror of `p_entries`.
fn parse_entries_exec(v: &Vec<char>, i: usize) -> (r: Option<(Vec<Client>, usize)>)
    requires
        i <= v@.len(),
    ensures
        match r {
            Some((es, j)) => {
                &&& i < j <= v@.len()
                &&& p_entries(v@.skip(i as int)) == Some(
                    (es@.map_values(|c: Client| (c.name@, c.color@)), v@.skip(j as int)),
                )
            },
            None => p_entries(v@.skip(i as int)) is None,
        },
{
    let ghost s = v@.skip(i as int);
    if i < v.len() {
        proof {
            assert(s[0] == v@[i as int]);
        }
    }
    if i < v.len() && v[i] == '}' {
        let out: Vec<Client> = Vec::new();
        proof {
            assert(s.skip(1) =~= v@.skip(i + 1));
            assert(out@.map_values(|c: Client| (c.name@, c.color@)) =~= Seq::<
                (Seq<char>, Seq<char>),
            >::empty());
        }
        return Some((out, i + 1));
    }
    match parse_entry_exec(v, i) {
        Some((e, j)) => {
            match parse_entries_rest_exec(v, j) {
                Some((es, k)) => {
                    let ghost tail_views = es@.map_values(|c: Client| (c.name@, c.color@));
                    let ghost e_pair = (e.name@, e.color@);
                    let mut es = es;
                    es.insert(0, e);
                    proof {
                        assert(es@.map_values(|c: Client| (c.name@, c.color@)) =~= seq![e_pair]
                            + tail_views);
                    }
                    Some((es, k))
                },
                None => None,
            }
        },
        None => None,
    }
}

/// First position at or after `i` holding no digit.
fn skip_digits_exec(v: &Vec<char>, i: usize) -> (k: usize)
    requires
        i <= v@.len(),
    ensures
        i <= k <= v@.len(),
        skip_digits(v@.skip(i as int)) == v@.skip(k as int),
    decreases v@.len() - i,
{
    if i < v.len() {
        let d = is_digit_exec(v[i]);
        proof {
            assert(v@.skip(i as int)[0] == v@[i as int]);
            assert(v@.skip(i as int).skip(1) =~= v@.skip(i + 1));
        }
        if d {
            return skip_digits_exec(v, i + 1);
        }
    }
    i
}

/// Rebuilds the allocator from persisted text.  Returns the mapping exactly
/// when the text is a well-shaped persisted mapping with pairwise-distinct
/// names; the caller treats `None` as the expected first-run state and
/// starts from a fresh mapping.
pub fn decode_client_colors(text: &str) -> (r: Option<ClientColorMap>)
    ensures
        match r {
            Some(m) => {
                &&& m@.wf()
                &&& m@.palette == spec_default_palette()
                &&& spec_parse_color_file(text@) == Some(m@.colors)
            },
            None => match spec_parse_color_file(text@) {
                Some(es) => !distinct_names(es),
                None => true,
            },
        },
{
    let v = str_chars(text);
    let hdr = header_chars();
    let header_ok = match_at(&v, 0, &hdr);
    proof {
        if v@.len() >= 11 {
            assert(v@.subrange(0, 11) =~= v@.take(11));
        }
    }
    if !header_ok {
        return None;
    }
    match parse_entries_exec(&v, 11) {
        Some((entries, j)) => {
            let ghost entries_view = entries@;
            let ghost es = entries@.map_values(|c: Client| (c.name@, c.color@));
            let ghost r1 = v@.skip(j as int);
            let key = index_key_chars();
            let key_ok = match_at(&v, j, &key);
            proof {
                if j + 20 <= v@.len() {
                    assert(v@.subrange(j as int, j + 20) =~= r1.take(20));
                }
            }
            if !key_ok {
                return None;
            }
            let vlen = v.len();
            proof {
                assert(j + 20 <= vlen);
                assert(r1.skip(20) =~= v@.skip(j + 20));
            }
            let j2 = j + 20;
            if j2 >= v.len() {
                return None;
            }
            proof {
                assert(v@.skip(j2 as int)[0] == v@[j2 as int]);
            }
            if !is_digit_exec(v[j2]) {
                return None;
            }
            let k = skip_digits_exec(&v, j2);
            if v.len() - k != 1 {
                proof {
                    assert(v@.skip(k as int).len() == v@.len() - k);
                    assert(v@.skip(k as int) != seq!['}']);
                }
                return None;
            }
            proof {
                assert(v@.skip(k as int)[0] == v@[k as int]);
            }
            if v[k] != '}' {
                proof {
                    assert(v@.skip(k as int) != seq!['}']);
                }
                return None;
            }
            proof {
                assert(v@.skip(k as int) =~= seq!['}']);
            }
            match ClientColorMap::rebuild(entries) {
                Some(m) => Some(m),
                None => {
                    proof {
                        let (p, q) = choose|p: int, q: int|
                            0 <= p < q < entries_view.len() && entries_view[p].name@
                                == entries_view[q].name@;
                        assert(es[p].0 == es[q].0);
                        assert(!distinct_names(es));
                    }
                    None
                },
            }
        },
        None => None,
    }
}

/// Parsing a string body inverts escaping, whatever follows the closing
/// quote.
proof fn lemma_p_str_body_esc(content: Seq<char>, rest: Seq<char>)
    ensures
        p_str_body(esc(content) + seq!['"'] + rest) == Some((content, rest)),
    decreases content.len(),
{
    let s = esc(content) + seq!['"'] + rest;
    if content.len() == 0 {
        assert(esc(content) =~= Seq::<char>::empty());
        assert(s[0] == '"');
        assert(s.skip(1) =~= rest);
    } else {
        let c = content[0];
        let tail = content.skip(1);
        lemma_p_str_body_esc(tail, rest);
        assert(esc(content) == esc_char(c) + esc(tail));
        if is_esc_char(c) {
            assert(s[0] == '\\');
            assert(s[1] == c);
            assert(s.skip(2) =~= esc(tail) + seq!['"'] + rest);
            assert(seq![s[1]] + tail =~= content);
        } else {
            assert(s[0] == c);
            assert(s.skip(1) =~= esc(tail) + seq!['"'] + rest);
            assert(seq![s[0]] + tail =~= content);
        }
    }
}

/// Parsing a pair inverts encoding a pair, whatever follows it.
proof fn lemma_p_entry_enc(e: (Seq<char>, Seq<char>), rest: Seq<char>)
    ensures
        p_entry(enc_entry(e) + rest) == Some((e, rest)),
{
    let s = enc_entry(e) + rest;
    let mid = seq![':', '"'] + esc(e.1) + seq!['"'] + rest;
    assert(s[0] == '"');
    assert(s.skip(1) =~= esc(e.0) + seq!['"'] + mid);
    lemma_p_str_body_esc(e.0, mid);
    assert(mid[0] == ':');
    assert(mid[1] == '"');
    assert(mid.skip(2) =~= esc(e.1) + seq!['"'] + rest);
    lemma_p_str_body_esc(e.1, rest);
}

/// Parsing the comma-separated continuation inverts its encoding.
proof fn lemma_p_entries_rest_enc(es: Seq<(Seq<char>, Seq<char>)>, rest: Seq<char>)
    ensures
        p_entries_rest(enc_entries_tail(es) + seq!['}'] + rest) == Some((es, rest)),
    decreases es.len(),
{
    let s = enc_entries_tail(es) + seq!['}'] + rest;
    if es.len() == 0 {
        assert(enc_entries_tail(es) =~= Seq::<char>::empty());
        assert(s[0] == '}');
        assert(s.skip(1) =~= rest);
        assert(p_entries_rest(s) == Some((Seq::<(Seq<char>, Seq<char>)>::empty(), rest)));
        assert(Seq::<(Seq<char>, Seq<char>)>::empty() =~= es);
    } else {
        let follow = enc_entries_tail(es.skip(1)) + seq!['}'] + rest;
        assert(s[0] == ',');
        assert(s.skip(1) =~= enc_entry(es[0]) + follow);
        lemma_p_entry_enc(es[0], follow);
        lemma_p_entries_rest_enc(es.skip(1), rest);
        assert(seq![es[0]] + es.skip(1) =~= es);
    }
}

/// Parsing the pair list inverts its encoding.
proof fn lemma_p_entries_enc(es: Seq<(Seq<char>, Seq<char>)>, rest: Seq<char>)
    ensures
        p_entries(enc_entries(es) + seq!['}'] + rest) == Some((es, rest)),
{
    let s = enc_entries(es) + seq!['}'] + rest;
    if es.len() == 0 {
        assert(enc_entries(es) =~= Seq::<char>::empty());
        assert(s[0] == '}');
        assert(s.skip(1) =~= rest);
        assert(Seq::<(Seq<char>, Seq<char>)>::empty() =~= es);
    } else {
        let follow = enc_entries_tail(es.skip(1)) + seq!['}'] + rest;
        assert(s[0] == '"');
        assert(s == enc_entry(es[0]) + follow) by {
            assert(s =~= enc_entry(es[0]) + follow);
        }
        lemma_p_entry_enc(es[0], follow);
        lemma_p_entries_rest_enc(es.skip(1), rest);
        assert(seq![es[0]] + es.skip(1) =~= es);
    }
}

/// The digits of an index are digits, and there is at least one.
proof fn lemma_enc_index_digits(n: nat)
    ensures
        enc_index(n).len() >= 1,
        forall|i: int| 0 <= i < enc_index(n).len() ==> is_digit(#[trigger] enc_index(n)[i]),
    decreases n,
{
    if n < 10 {
        assert(is_digit(spec_digit_char(n)));
    } else {
        lemma_enc_index_digits(n / 10);
        assert(is_digit(spec_digit_char(n % 10)));
        assert forall|i: int| 0 <= i < enc_index(n).len() implies is_digit(
            #[trigger] enc_index(n)[i],
        ) by {
            if i < enc_index(n / 10).len() {
                assert(enc_index(n)[i] == enc_index(n / 10)[i]);
            } else {
                assert(enc_index(n)[i] == spec_digit_char(n % 10));
            }
        }
    }
}

/// Skipping digits drops exactly a leading all-digit run.
proof fn lemma_skip_digits_all(a: Seq<char>, rest: Seq<char>)
    requires
        forall|i: int| 0 <= i < a.len() ==> is_digit(#[trigger] a[i]),
        rest.len() == 0 || !is_digit(rest[0]),
    ensures
        skip_digits(a + rest) == rest,
    decreases a.len(),
{
    if a.len() == 0 {
        assert(a + rest =~= rest);
        if rest.len() >= 1 {
            assert(!is_digit(rest[0]));
        }
    } else {
        assert((a + rest)[0] == a[0]);
        assert((a + rest).skip(1) =~= a.skip(1) + rest);
        lemma_skip_digits_all(a.skip(1), rest);
    }
}

/// Law: the persisted text of a well-formed allocator state parses back to
/// exactly its client/color pairs, and its names are pairwise distinct; with
/// the default palette, re-deriving the next index from the entry count
/// restores the state itself.  Persisting and reloading therefore yields the
/// identical mapping.
pub proof fn lemma_color_map_round_trip(m: ColorMapModel)
    requires
        m.wf(),
    ensures
        spec_parse_color_file(spec_encode_color_map(m)) == Some(m.colors),
        distinct_names(m.colors),
        m.palette == spec_default_palette() ==> (ColorMapModel {
            colors: m.colors,
            palette: spec_default_palette(),
            next_color_index: m.colors.len() % spec_default_palette().len(),
        }) == m,
{
    let s = spec_encode_color_map(m);
    let digits = enc_index(m.next_color_index);
    let after_entries = file_index_key() + digits + seq!['}'];
    assert(s.len() >= 11);
    assert(s.take(11) =~= file_header());
    assert(s.skip(11) =~= enc_entries(m.colors) + seq!['}'] + after_entries);
    lemma_p_entries_enc(m.colors, after_entries);
    assert(p_entries(s.skip(11)) == Some((m.colors, after_entries)));
    assert(after_entries.len() >= 20);
    assert(after_entries.take(20) =~= file_index_key());
    let r2 = after_entries.skip(20);
    assert(r2 =~= digits + seq!['}']);
    lemma_enc_index_digits(m.next_color_index);
    assert(r2[0] == digits[0]);
    assert(is_digit(r2[0]));
    lemma_skip_digits_all(digits, seq!['}']);
    assert(skip_digits(r2) == seq!['}']);
}

/// The persisted text of the mapping, ready to be written to the mapping
/// file.
pub fn encode_client_colors(map: &ClientColorMap) -> (s: String)
    ensures
        s@ == spec_encode_color_map(map@),
{
    let mut out = header_chars();
    let mut entries = encode_entries(map);
    out.append(&mut entries);
    out.push('}');
    let mut key = index_key_chars();
    out.append(&mut key);
    let mut digits = encode_index(map.next_index());
    out.append(&mut digits);
    out.push('}');
    proof {
        assert(out@ =~= spec_encode_color_map(map@));
    }
    chars_into_string(&out)
}

} // verus!
