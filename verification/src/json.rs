//! The configuration document format: a fixed-shape, pretty-printed JSON
//! object mapping organization names to organizations, each with its slug
//! and its cached projects (base64 blobs), as in:
//!
//! ```text
//! {
//!   "organizations": {
//!     "acme": {
//!       "name": "acme",
//!       "slug": "acme-org",
//!       "projects": {
//!         "web": { "name": "<base64>", "slug": "web" }
//!       }
//!     }
//!   }
//! }
//! ```
//!
//! The parser accepts this shape with arbitrary inter-token whitespace,
//! rejects duplicate keys, mismatched inner name/slug fields, and `\u`
//! escapes outside the Latin-1 range, and is the exact specification of
//! what `Config::load` accepts.
use vstd::prelude::*;
use crate::b64::{b64_decoded, b64_of};
use crate::config::{org_names_unique, orgs_map, project_slugs_unique, projects_map, Config,
    EncryptedProject, Organization, OrgView};
use vstd::string::StringExecFns;

verus! {

pub open spec fn is_ws(c: char) -> bool {
    c == ' ' || c == '\n' || c == '\r' || c == '\t'
}

pub open spec fn hex_val(c: char) -> Option<int> {
    if '0' <= c && c <= '9' {
        Some(c as u32 - '0' as u32)
    } else if 'a' <= c && c <= 'f' {
        Some(c as u32 - 'a' as u32 + 10)
    } else if 'A' <= c && c <= 'F' {
        Some(c as u32 - 'A' as u32 + 10)
    } else {
        None
    }
}

/// The lowercase hexadecimal digit for a value below 16.
pub open spec fn hexdig_char(d: int) -> char
    recommends
        0 <= d < 16,
{
    if d == 0 { '0' }
    else if d == 1 { '1' }
    else if d == 2 { '2' }
    else if d == 3 { '3' }
    else if d == 4 { '4' }
    else if d == 5 { '5' }
    else if d == 6 { '6' }
    else if d == 7 { '7' }
    else if d == 8 { '8' }
    else if d == 9 { '9' }
    else if d == 10 { 'a' }
    else if d == 11 { 'b' }
    else if d == 12 { 'c' }
    else if d == 13 { 'd' }
    else if d == 14 { 'e' }
    else { 'f' }
}

/// The first non-whitespace position at or after `i`.
pub open spec fn skip_ws(t: Seq<char>, i: int) -> int
    decreases t.len() - i when 0 <= i <= t.len()
{
    if i < t.len() && is_ws(t[i]) {
        skip_ws(t, i + 1)
    } else {
        i
    }
}

proof fn lemma_skip_ws_bounds(t: Seq<char>, i: int)
    requires
        0 <= i <= t.len(),
    ensures
        i <= skip_ws(t, i) <= t.len(),
    decreases t.len() - i,
{
    if i < t.len() && is_ws(t[i]) {
        lemma_skip_ws_bounds(t, i + 1);
    }
}

/// `skip_ws` lands exactly on `q` where everything before it (from `i`) is
/// whitespace and `q` itself is not.
proof fn lemma_skip_ws_to(t: Seq<char>, i: int, q: int)
    requires
        0 <= i <= q <= t.len(),
        forall|m: int| i <= m < q ==> is_ws(#[trigger] t[m]),
        q == t.len() || !is_ws(t[q]),
    ensures
        skip_ws(t, i) == q,
    decreases q - i,
{
    if i < q {
        lemma_skip_ws_to(t, i + 1, q);
    }
}

/// The value of one unescaped escape character, where it is one.
pub open spec fn unescape1(c: char) -> Option<char> {
    if c == '"' { Some('"') }
    else if c == '\\' { Some('\\') }
    else if c == '/' { Some('/') }
    else if c == 'n' { Some('\n') }
    else if c == 't' { Some('\t') }
    else if c == 'r' { Some('\r') }
    else if c == 'b' { Some(8u32 as char) }
    else if c == 'f' { Some(12u32 as char) }
    else { None }
}

/// Four hexadecimal digits starting at `i`, as a number.
pub open spec fn hex4(t: Seq<char>, i: int) -> Option<int>
    recommends
        0 <= i,
        i + 4 <= t.len(),
{
    match (hex_val(t[i]), hex_val(t[i + 1]), hex_val(t[i + 2]), hex_val(t[i + 3])) {
        (Some(a), Some(b), Some(c), Some(d)) => Some(4096 * a + 256 * b + 16 * c + d),
        _ => None,
    }
}

/// The characters of a string value, read from just after its opening quote
/// up to and past its closing quote. Escapes `\" \\ \/ \n \t \r \b \f` and
/// `\uXXXX` for codes below 256 are understood; anything else fails.
pub open spec fn parse_string_body(t: Seq<char>, i: int) -> Option<(Seq<char>, int)>
    decreases t.len() - i when 0 <= i <= t.len()
{
    if i >= t.len() {
        None
    } else if t[i] == '"' {
        Some((Seq::empty(), i + 1))
    } else if t[i] == '\\' {
        if t.len() - i >= 2 {
            if t[i + 1] == 'u' {
                if t.len() - i >= 6 {
                    match hex4(t, i + 2) {
                        Some(v) => if v < 256 {
                            match parse_string_body(t, i + 6) {
                                Some((s, j)) => Some((seq![(v as u32) as char] + s, j)),
                                None => None,
                            }
                        } else {
                            None
                        },
                        None => None,
                    }
                } else {
                    None
                }
            } else {
                match unescape1(t[i + 1]) {
                    Some(c) => match parse_string_body(t, i + 2) {
                        Some((s, j)) => Some((seq![c] + s, j)),
                        None => None,
                    },
                    None => None,
                }
            }
        } else {
            None
        }
    } else {
        match parse_string_body(t, i + 1) {
            Some((s, j)) => Some((seq![t[i]] + s, j)),
            None => None,
        }
    }
}

proof fn lemma_string_body_adv(t: Seq<char>, i: int)
    requires
        0 <= i <= t.len(),
        parse_string_body(t, i) is Some,
    ensures
        i < parse_string_body(t, i)->Some_0.1 <= t.len(),
    decreases t.len() - i,
{
    if i >= t.len() {
    } else if t[i] == '"' {
    } else if t[i] == '\\' {
        if t[i + 1] == 'u' {
            lemma_string_body_adv(t, i + 6);
        } else {
            lemma_string_body_adv(t, i + 2);
        }
    } else {
        lemma_string_body_adv(t, i + 1);
    }
}

/// A quoted string value starting (after whitespace) at `i`.
pub open spec fn parse_json_string(t: Seq<char>, i: int) -> Option<(Seq<char>, int)>
    recommends
        0 <= i <= t.len(),
{
    let j = skip_ws(t, i);
    if 0 <= j && j < t.len() && t[j] == '"' {
        parse_string_body(t, j + 1)
    } else {
        None
    }
}

proof fn lemma_json_string_adv(t: Seq<char>, i: int)
    requires
        0 <= i <= t.len(),
        parse_json_string(t, i) is Some,
    ensures
        i < parse_json_string(t, i)->Some_0.1 <= t.len(),
{
    lemma_skip_ws_bounds(t, i);
    let j = skip_ws(t, i);
    lemma_string_body_adv(t, j + 1);
}

/// The position just past `c`, where (after whitespace) `c` stands at `i`.
pub open spec fn expect_char(t: Seq<char>, i: int, c: char) -> Option<int>
    recommends
        0 <= i <= t.len(),
{
    let j = skip_ws(t, i);
    if 0 <= j && j < t.len() && t[j] == c {
        Some(j + 1)
    } else {
        None
    }
}

proof fn lemma_expect_char_adv(t: Seq<char>, i: int, c: char)
    requires
        0 <= i <= t.len(),
        expect_char(t, i, c) is Some,
    ensures
        i < expect_char(t, i, c)->Some_0 <= t.len(),
{
    lemma_skip_ws_bounds(t, i);
}

/// The position just past the literal `lit`, where (after whitespace) the
/// text carries `lit` verbatim at `i`.
pub open spec fn expect_lit(t: Seq<char>, i: int, lit: Seq<char>) -> Option<int>
    recommends
        0 <= i <= t.len(),
{
    let j = skip_ws(t, i);
    if 0 <= j && j + lit.len() <= t.len() && t.subrange(j, j + lit.len()) == lit {
        Some(j + lit.len())
    } else {
        None
    }
}

proof fn lemma_expect_lit_adv(t: Seq<char>, i: int, lit: Seq<char>)
    requires
        0 <= i <= t.len(),
        expect_lit(t, i, lit) is Some,
    ensures
        i <= expect_lit(t, i, lit)->Some_0 <= t.len(),
        lit.len() > 0 ==> i < expect_lit(t, i, lit)->Some_0,
{
    lemma_skip_ws_bounds(t, i);
}

/// A cached-project object `{ "name": <base64>, "slug": <key> }` whose slug
/// field must repeat the entry key, yielding the decoded blob.
pub open spec fn parse_project_obj(t: Seq<char>, i: int, slug_key: Seq<char>) -> Option<
    (Seq<u8>, int),
>
    recommends
        0 <= i <= t.len(),
{
    match expect_char(t, i, '{') {
        Some(j1) => match expect_lit(t, j1, "\"name\""@) {
            Some(j2) => match expect_char(t, j2, ':') {
                Some(j3) => match parse_json_string(t, j3) {
                    Some((b64txt, j4)) => match b64_decoded(b64txt) {
                        Some(blob) => match expect_char(t, j4, ',') {
                            Some(j5) => match expect_lit(t, j5, "\"slug\""@) {
                                Some(j6) => match expect_char(t, j6, ':') {
                                    Some(j7) => match parse_json_string(t, j7) {
                                        Some((s2, j8)) => if s2 == slug_key {
                                            match expect_char(t, j8, '}') {
                                                Some(j9) => Some((blob, j9)),
                                                None => None,
                                            }
                                        } else {
                                            None
                                        },
                                        None => None,
                                    },
                                    None => None,
                                },
                                None => None,
                            },
                            None => None,
                        },
                        None => None,
                    },
                    None => None,
                },
                None => None,
            },
            None => None,
        },
        None => None,
    }
}

proof fn lemma_project_obj_adv(t: Seq<char>, i: int, slug_key: Seq<char>)
    requires
        0 <= i <= t.len(),
        parse_project_obj(t, i, slug_key) is Some,
    ensures
        i < parse_project_obj(t, i, slug_key)->Some_0.1 <= t.len(),
{
    let j1 = expect_char(t, i, '{')->Some_0;
    lemma_expect_char_adv(t, i, '{');
    let j2 = expect_lit(t, j1, "\"name\""@)->Some_0;
    lemma_expect_lit_adv(t, j1, "\"name\""@);
    let j3 = expect_char(t, j2, ':')->Some_0;
    lemma_expect_char_adv(t, j2, ':');
    let j4 = parse_json_string(t, j3)->Some_0.1;
    lemma_json_string_adv(t, j3);
    let j5 = expect_char(t, j4, ',')->Some_0;
    lemma_expect_char_adv(t, j4, ',');
    let j6 = expect_lit(t, j5, "\"slug\""@)->Some_0;
    lemma_expect_lit_adv(t, j5, "\"slug\""@);
    let j7 = expect_char(t, j6, ':')->Some_0;
    lemma_expect_char_adv(t, j6, ':');
    let j8 = parse_json_string(t, j7)->Some_0.1;
    lemma_json_string_adv(t, j7);
    lemma_expect_char_adv(t, j8, '}');
}

/// One or more `"slug": { ... }` entries of a projects map, up to and past
/// the closing brace. A repeated slug fails.
pub open spec fn parse_project_entries(t: Seq<char>, i: int) -> Option<
    (Map<Seq<char>, Seq<u8>>, int),
>
    decreases t.len() - i when 0 <= i <= t.len() via parse_project_entries_dec
{
    match parse_json_string(t, i) {
        Some((slug, j1)) => match expect_char(t, j1, ':') {
            Some(j2) => match parse_project_obj(t, j2, slug) {
                Some((blob, j3)) => {
                    let j4 = skip_ws(t, j3);
                    if 0 <= j4 && j4 < t.len() && t[j4] == ',' {
                        match parse_project_entries(t, j4 + 1) {
                            Some((m, j5)) => if m.contains_key(slug) {
                                None
                            } else {
                                Some((m.insert(slug, blob), j5))
                            },
                            None => None,
                        }
                    } else if 0 <= j4 && j4 < t.len() && t[j4] == '}' {
                        Some((map![slug => blob], j4 + 1))
                    } else {
                        None
                    }
                },
                None => None,
            },
            None => None,
        },
        None => None,
    }
}

#[via_fn]
proof fn parse_project_entries_dec(t: Seq<char>, i: int) {
    if parse_json_string(t, i) is Some {
        let (slug, j1) = parse_json_string(t, i)->Some_0;
        lemma_json_string_adv(t, i);
        if expect_char(t, j1, ':') is Some {
            let j2 = expect_char(t, j1, ':')->Some_0;
            lemma_expect_char_adv(t, j1, ':');
            if parse_project_obj(t, j2, slug) is Some {
                let j3 = parse_project_obj(t, j2, slug)->Some_0.1;
                lemma_project_obj_adv(t, j2, slug);
                lemma_skip_ws_bounds(t, j3);
            }
        }
    }
}

/// A projects map: `{}` or `{ <entries> }`.
pub open spec fn parse_projects(t: Seq<char>, i: int) -> Option<(Map<Seq<char>, Seq<u8>>, int)>
    recommends
        0 <= i <= t.len(),
{
    match expect_char(t, i, '{') {
        Some(j1) => {
            let j2 = skip_ws(t, j1);
            if 0 <= j2 && j2 < t.len() && t[j2] == '}' {
                Some((Map::empty(), j2 + 1))
            } else {
                parse_project_entries(t, j1)
            }
        },
        None => None,
    }
}

proof fn lemma_project_entries_adv(t: Seq<char>, i: int)
    requires
        0 <= i <= t.len(),
        parse_project_entries(t, i) is Some,
    ensures
        i < parse_project_entries(t, i)->Some_0.1 <= t.len(),
    decreases t.len() - i,
{
    let (slug, j1) = parse_json_string(t, i)->Some_0;
    lemma_json_string_adv(t, i);
    let j2 = expect_char(t, j1, ':')->Some_0;
    lemma_expect_char_adv(t, j1, ':');
    let j3 = parse_project_obj(t, j2, slug)->Some_0.1;
    lemma_project_obj_adv(t, j2, slug);
    let j4 = skip_ws(t, j3);
    lemma_skip_ws_bounds(t, j3);
    if 0 <= j4 && j4 < t.len() && t[j4] == ',' {
        lemma_project_entries_adv(t, j4 + 1);
    }
}

proof fn lemma_projects_adv(t: Seq<char>, i: int)
    requires
        0 <= i <= t.len(),
        parse_projects(t, i) is Some,
    ensures
        i < parse_projects(t, i)->Some_0.1 <= t.len(),
{
    let j1 = expect_char(t, i, '{')->Some_0;
    lemma_expect_char_adv(t, i, '{');
    lemma_skip_ws_bounds(t, j1);
    let j2 = skip_ws(t, j1);
    if !(0 <= j2 && j2 < t.len() && t[j2] == '}') {
        lemma_project_entries_adv(t, j1);
    }
}

/// An organization object `{ "name": <key>, "slug": ..., "projects": ... }`
/// whose name field must repeat the entry key.
pub open spec fn parse_org_obj(t: Seq<char>, i: int, name_key: Seq<char>) -> Option<
    (OrgView, int),
>
    recommends
        0 <= i <= t.len(),
{
    match expect_char(t, i, '{') {
        Some(j1) => match expect_lit(t, j1, "\"name\""@) {
            Some(j2) => match expect_char(t, j2, ':') {
                Some(j3) => match parse_json_string(t, j3) {
                    Some((n, j4)) => if n == name_key {
                        match expect_char(t, j4, ',') {
                            Some(j5) => match expect_lit(t, j5, "\"slug\""@) {
                                Some(j6) => match expect_char(t, j6, ':') {
                                    Some(j7) => match parse_json_string(t, j7) {
                                        Some((sl, j8)) => match expect_char(t, j8, ',') {
                                            Some(j9) => match expect_lit(
                                                t,
                                                j9,
                                                "\"projects\""@,
                                            ) {
                                                Some(j10) => match expect_char(t, j10, ':') {
                                                    Some(j11) => match parse_projects(t, j11) {
                                                        Some((pm, j12)) => match expect_char(
                                                            t,
                                                            j12,
                                                            '}',
                                                        ) {
                                                            Some(j13) => Some(
                                                                (
                                                                    OrgView {
                                                                        name: name_key,
                                                                        slug: sl,
                                                                        projects: pm,
                                                                    },
                                                                    j13,
                                                                ),
                                                            ),
                                                            None => None,
                                                        },
                                                        None => None,
                                                    },
                                                    None => None,
                                                },
                                                None => None,
                                            },
                                            None => None,
                                        },
                                        None => None,
                                    },
                                    None => None,
                                },
                                None => None,
                            },
                            None => None,
                        }
                    } else {
                        None
                    },
                    None => None,
                },
                None => None,
            },
            None => None,
        },
        None => None,
    }
}

proof fn lemma_org_obj_adv(t: Seq<char>, i: int, name_key: Seq<char>)
    requires
        0 <= i <= t.len(),
        parse_org_obj(t, i, name_key) is Some,
    ensures
        i < parse_org_obj(t, i, name_key)->Some_0.1 <= t.len(),
{
    let j1 = expect_char(t, i, '{')->Some_0;
    lemma_expect_char_adv(t, i, '{');
    let j2 = expect_lit(t, j1, "\"name\""@)->Some_0;
    lemma_expect_lit_adv(t, j1, "\"name\""@);
    let j3 = expect_char(t, j2, ':')->Some_0;
    lemma_expect_char_adv(t, j2, ':');
    let j4 = parse_json_string(t, j3)->Some_0.1;
    lemma_json_string_adv(t, j3);
    let j5 = expect_char(t, j4, ',')->Some_0;
    lemma_expect_char_adv(t, j4, ',');
    let j6 = expect_lit(t, j5, "\"slug\""@)->Some_0;
    lemma_expect_lit_adv(t, j5, "\"slug\""@);
    let j7 = expect_char(t, j6, ':')->Some_0;
    lemma_expect_char_adv(t, j6, ':');
    let j8 = parse_json_string(t, j7)->Some_0.1;
    lemma_json_string_adv(t, j7);
    let j9 = expect_char(t, j8, ',')->Some_0;
    lemma_expect_char_adv(t, j8, ',');
    let j10 = expect_lit(t, j9, "\"projects\""@)->Some_0;
    lemma_expect_lit_adv(t, j9, "\"projects\""@);
    let j11 = expect_char(t, j10, ':')->Some_0;
    lemma_expect_char_adv(t, j10, ':');
    let j12 = parse_projects(t, j11)->Some_0.1;
    lemma_projects_adv(t, j11);
    lemma_expect_char_adv(t, j12, '}');
}

/// One or more `"name": { ... }` entries of the organizations map, up to and
/// past the closing brace. A repeated name fails.
pub open spec fn parse_org_entries(t: Seq<char>, i: int) -> Option<
    (Map<Seq<char>, OrgView>, int),
>
    decreases t.len() - i when 0 <= i <= t.len() via parse_org_entries_dec
{
    match parse_json_string(t, i) {
        Some((name, j1)) => match expect_char(t, j1, ':') {
            Some(j2) => match parse_org_obj(t, j2, name) {
                Some((org, j3)) => {
                    let j4 = skip_ws(t, j3);
                    if 0 <= j4 && j4 < t.len() && t[j4] == ',' {
                        match parse_org_entries(t, j4 + 1) {
                            Some((m, j5)) => if m.contains_key(name) {
                                None
                            } else {
                                Some((m.insert(name, org), j5))
                            },
                            None => None,
                        }
                    } else if 0 <= j4 && j4 < t.len() && t[j4] == '}' {
                        Some((map![name => org], j4 + 1))
                    } else {
                        None
                    }
                },
                None => None,
            },
            None => None,
        },
        None => None,
    }
}

#[via_fn]
proof fn parse_org_entries_dec(t: Seq<char>, i: int) {
    if parse_json_string(t, i) is Some {
        let (name, j1) = parse_json_string(t, i)->Some_0;
        lemma_json_string_adv(t, i);
        if expect_char(t, j1, ':') is Some {
            let j2 = expect_char(t, j1, ':')->Some_0;
            lemma_expect_char_adv(t, j1, ':');
            if parse_org_obj(t, j2, name) is Some {
                let j3 = parse_org_obj(t, j2, name)->Some_0.1;
                lemma_org_obj_adv(t, j2, name);
                lemma_skip_ws_bounds(t, j3);
            }
        }
    }
}

/// The organizations map: `{}` or `{ <entries> }`.
pub open spec fn parse_orgs(t: Seq<char>, i: int) -> Option<(Map<Seq<char>, OrgView>, int)>
    recommends
        0 <= i <= t.len(),
{
    match expect_char(t, i, '{') {
        Some(j1) => {
            let j2 = skip_ws(t, j1);
            if 0 <= j2 && j2 < t.len() && t[j2] == '}' {
                Some((Map::empty(), j2 + 1))
            } else {
                parse_org_entries(t, j1)
            }
        },
        None => None,
    }
}

/// What parsing a whole document yields: the organizations map, with only
/// whitespace allowed after the closing brace.
pub open spec fn parse_config_spec(t: Seq<char>) -> Option<Map<Seq<char>, OrgView>> {
    match expect_char(t, 0, '{') {
        Some(j1) => match expect_lit(t, j1, "\"organizations\""@) {
            Some(j2) => match expect_char(t, j2, ':') {
                Some(j3) => match parse_orgs(t, j3) {
                    Some((m, j4)) => match expect_char(t, j4, '}') {
                        Some(j5) => if j5 <= t.len() && skip_ws(t, j5) == t.len() {
                            Some(m)
                        } else {
                            None
                        },
                        None => None,
                    },
                    None => None,
                },
                None => None,
            },
            None => None,
        },
        None => None,
    }
}


// ---------------------------------------------------------------------------
// Rendering
// ---------------------------------------------------------------------------
/// How one character appears inside a rendered string value: quotes and
/// backslashes escaped, control characters as `\u00XX`, everything else as
/// itself.
pub open spec fn escape_char(c: char) -> Seq<char> {
    if c == '"' {
        seq!['\\', '"']
    } else if c == '\\' {
        seq!['\\', '\\']
    } else if (c as u32) < 32 {
        seq![
            '\\',
            'u',
            '0',
            '0',
            hexdig_char(((c as u32) / 16) as int),
            hexdig_char(((c as u32) % 16) as int),
        ]
    } else {
        seq![c]
    }
}

/// The rendered body of a string value.
pub open spec fn render_string(s: Seq<char>) -> Seq<char>
    decreases s.len(),
{
    if s.len() == 0 {
        Seq::empty()
    } else {
        escape_char(s[0]) + render_string(s.drop_first())
    }
}

/// A rendered string value with its quotes.
pub open spec fn quoted(s: Seq<char>) -> Seq<char> {
    seq!['"'] + render_string(s) + seq!['"']
}

pub open spec fn render_project_entry(slug: Seq<char>, blob: Seq<u8>) -> Seq<char> {
    quoted(slug) + ": {\n          \"name\": "@ + quoted(b64_of(blob))
        + ",\n          \"slug\": "@ + quoted(slug) + "\n        }"@
}

pub open spec fn render_project_entries(ps: Seq<EncryptedProject>) -> Seq<char>
    decreases ps.len(),
{
    if ps.len() == 0 {
        Seq::empty()
    } else if ps.len() == 1 {
        render_project_entry(ps[0].slug@, ps[0].name@)
    } else {
        render_project_entry(ps[0].slug@, ps[0].name@) + ",\n        "@
            + render_project_entries(ps.drop_first())
    }
}

pub open spec fn render_projects(ps: Seq<EncryptedProject>) -> Seq<char> {
    if ps.len() == 0 {
        "{}"@
    } else {
        "{\n        "@ + render_project_entries(ps) + "\n      }"@
    }
}

pub open spec fn render_org_entry(o: Organization) -> Seq<char> {
    quoted(o.name@) + ": {\n      \"name\": "@ + quoted(o.name@) + ",\n      \"slug\": "@
        + quoted(o.slug@) + ",\n      \"projects\": "@ + render_projects(o.projects@)
        + "\n    }"@
}

pub open spec fn render_org_entries(os: Seq<Organization>) -> Seq<char>
    decreases os.len(),
{
    if os.len() == 0 {
        Seq::empty()
    } else if os.len() == 1 {
        render_org_entry(os[0])
    } else {
        render_org_entry(os[0]) + ",\n    "@ + render_org_entries(os.drop_first())
    }
}

pub open spec fn render_orgs(os: Seq<Organization>) -> Seq<char> {
    if os.len() == 0 {
        "{}"@
    } else {
        "{\n    "@ + render_org_entries(os) + "\n  }"@
    }
}

/// The full pretty-printed document for a sequence of organizations.
pub open spec fn render_config_spec(os: Seq<Organization>) -> Seq<char> {
    "{\n  \"organizations\": "@ + render_orgs(os) + "\n}"@
}

/// Relies on std's `String::push`: appends one character.
#[verifier::external_body]
pub(crate) fn push_char(s: &mut String, c: char)
    ensures
        final(s)@ == old(s)@.push(c),
{
    s.push(c);
}

/// Relies on std's `FromIterator` for `String`: the string of a character
/// vector.
#[verifier::external_body]
fn chars_to_string(v: &Vec<char>) -> (r: String)
    ensures
        r@ == v@,
{
    v.iter().collect()
}

fn hexdig(d: u32) -> (r: char)
    requires
        d < 16,
    ensures
        r == hexdig_char(d as int),
{
    if d == 0 { '0' }
    else if d == 1 { '1' }
    else if d == 2 { '2' }
    else if d == 3 { '3' }
    else if d == 4 { '4' }
    else if d == 5 { '5' }
    else if d == 6 { '6' }
    else if d == 7 { '7' }
    else if d == 8 { '8' }
    else if d == 9 { '9' }
    else if d == 10 { 'a' }
    else if d == 11 { 'b' }
    else if d == 12 { 'c' }
    else if d == 13 { 'd' }
    else if d == 14 { 'e' }
    else { 'f' }
}

proof fn lemma_render_string_snoc(s: Seq<char>, c: char)
    ensures
        render_string(s.push(c)) == render_string(s) + escape_char(c),
    decreases s.len(),
{
    if s.len() == 0 {
        assert(s.push(c).drop_first() =~= Seq::<char>::empty());
        assert(s.push(c)[0] == c);
        assert(render_string(s.push(c)) == escape_char(c) + render_string(
            s.push(c).drop_first(),
        ));
        assert(render_string(s.push(c).drop_first()) == Seq::<char>::empty());
        assert(escape_char(c) + Seq::<char>::empty() =~= escape_char(c));
        assert(render_string(s) + escape_char(c) =~= escape_char(c));
    } else {
        lemma_render_string_snoc(s.drop_first(), c);
        assert(s.push(c).drop_first() =~= s.drop_first().push(c));
        assert(s.push(c)[0] == s[0]);
        assert(render_string(s.push(c)) == escape_char(s[0]) + render_string(
            s.drop_first().push(c),
        ));
        assert(escape_char(s[0]) + (render_string(s.drop_first()) + escape_char(c)) =~= (
        escape_char(s[0]) + render_string(s.drop_first())) + escape_char(c));
    }
}

fn render_string_into(out: &mut String, s: &str)
    ensures
        final(out)@ == old(out)@ + render_string(s@),
{
    let n = s.unicode_len();
    let mut k: usize = 0;
    proof {
        assert(s@.take(0) =~= Seq::<char>::empty());
        assert(out@ =~= out@ + render_string(s@.take(0)));
    }
    while k < n
        invariant
            n == s@.len(),
            k <= n,
            out@ == old(out)@ + render_string(s@.take(k as int)),
        decreases n - k,
    {
        let c = s.get_char(k);
        let ghost prefix = s@.take(k as int);
        if c == '"' {
            push_char(out, '\\');
            push_char(out, '"');
        } else if c == '\\' {
            push_char(out, '\\');
            push_char(out, '\\');
        } else if (c as u32) < 32 {
            push_char(out, '\\');
            push_char(out, 'u');
            push_char(out, '0');
            push_char(out, '0');
            push_char(out, hexdig((c as u32) / 16));
            push_char(out, hexdig((c as u32) % 16));
        } else {
            push_char(out, c);
        }
        proof {
            lemma_render_string_snoc(prefix, c);
            assert(s@.take(k + 1 as int) =~= prefix.push(c));
            assert(out@ =~= old(out)@ + render_string(s@.take(k + 1 as int)));
        }
        k = k + 1;
    }
    proof {
        assert(s@.take(n as int) =~= s@);
    }
}

fn render_quoted_into(out: &mut String, s: &str)
    ensures
        final(out)@ == old(out)@ + quoted(s@),
{
    push_char(out, '"');
    render_string_into(out, s);
    push_char(out, '"');
    proof {
        assert(out@ =~= old(out)@ + quoted(s@));
    }
}

#[verifier::rlimit(50)]
proof fn lemma_project_entries_snoc(ps: Seq<EncryptedProject>, k: int)
    requires
        1 <= k < ps.len(),
    ensures
        render_project_entries(ps.take(k + 1)) == render_project_entries(ps.take(k))
            + ",\n        "@ + render_project_entry(ps[k].slug@, ps[k].name@),
    decreases k,
{
    let a = ps.take(k + 1);
    let b = ps.take(k);
    if k == 1 {
        assert(a.drop_first() =~= seq![ps[1]]);
        assert(b =~= seq![ps[0]]);
        assert(render_project_entries(a.drop_first()) == render_project_entry(
            ps[1].slug@,
            ps[1].name@,
        ));
        assert(a[0] == ps[0]);
    } else {
        lemma_project_entries_snoc(ps.drop_first(), k - 1);
        assert(a.drop_first() =~= ps.drop_first().take(k));
        assert(b.drop_first() =~= ps.drop_first().take(k - 1));
        assert(ps.drop_first()[k - 1] == ps[k]);
        assert(a[0] == ps[0]);
        assert(b[0] == ps[0]);
        assert(render_project_entries(a) == render_project_entry(ps[0].slug@, ps[0].name@)
            + ",\n        "@ + render_project_entries(ps.drop_first().take(k)));
        assert(render_project_entries(b) == render_project_entry(ps[0].slug@, ps[0].name@)
            + ",\n        "@ + render_project_entries(ps.drop_first().take(k - 1)));
        assert((render_project_entry(ps[0].slug@, ps[0].name@) + ",\n        "@ + (
        render_project_entries(ps.drop_first().take(k - 1)) + ",\n        "@
            + render_project_entry(ps[k].slug@, ps[k].name@))) =~= ((render_project_entry(
            ps[0].slug@,
            ps[0].name@,
        ) + ",\n        "@ + render_project_entries(ps.drop_first().take(k - 1)))
            + ",\n        "@ + render_project_entry(ps[k].slug@, ps[k].name@)));
    }
}

fn render_projects_into(out: &mut String, ps: &Vec<EncryptedProject>)
    ensures
        final(out)@ == old(out)@ + render_projects(ps@),
        forall|m: int| 0 <= m < ps@.len() ==> b64_ok((#[trigger] ps@[m]).name@),
{
    if ps.len() == 0 {
        out.append("{}");
        return ;
    }
    out.append("{\n        ");
    let mut k: usize = 0;
    while k < ps.len()
        invariant
            1 <= ps@.len(),
            k <= ps@.len(),
            k == 0 ==> out@ == old(out)@ + "{\n        "@,
            k >= 1 ==> out@ == old(out)@ + "{\n        "@ + render_project_entries(
                ps@.take(k as int),
            ),
            forall|m: int| 0 <= m < k ==> b64_ok((#[trigger] ps@[m]).name@),
        decreases ps@.len() - k,
    {
        if k > 0 {
            out.append(",\n        ");
        }
        let ghost before = out@;
        render_quoted_into(out, ps[k].slug.as_str());
        out.append(": {\n          \"name\": ");
        let b64txt = crate::b64::b64_encode(ps[k].name.as_slice());
        render_quoted_into(out, b64txt.as_str());
        out.append(",\n          \"slug\": ");
        render_quoted_into(out, ps[k].slug.as_str());
        out.append("\n        }");
        proof {
            assert(b64_ok(ps@[k as int].name@));
            assert(render_string(b64txt@) == b64txt@) by {
                lemma_render_string_plain(b64txt@);
            }
            assert(out@ =~= before + render_project_entry(ps@[k as int].slug@, ps@[k as int].name@));
            if k == 0 {
                assert(ps@.take(1) =~= seq![ps@[0]]);
                assert(out@ =~= old(out)@ + "{\n        "@ + render_project_entries(ps@.take(1)));
            } else {
                lemma_project_entries_snoc(ps@, k as int);
                assert(out@ =~= old(out)@ + "{\n        "@ + render_project_entries(
                    ps@.take(k + 1 as int),
                ));
            }
        }
        k = k + 1;
    }
    out.append("\n      }");
    proof {
        assert(ps@.take(ps@.len() as int) =~= ps@);
        assert(out@ =~= old(out)@ + render_projects(ps@));
    }
}

/// A character that is rendered as itself.
pub open spec fn plain_char(c: char) -> bool {
    c != '"' && c != '\\' && (c as u32) >= 32
}

proof fn lemma_render_string_plain(s: Seq<char>)
    requires
        forall|i: int| 0 <= i < s.len() ==> plain_char(#[trigger] s[i]),
    ensures
        render_string(s) == s,
    decreases s.len(),
{
    if s.len() == 0 {
        assert(render_string(s) =~= s);
    } else {
        assert(plain_char(s[0]));
        lemma_render_string_plain(s.drop_first());
        assert(escape_char(s[0]) =~= seq![s[0]]);
        assert(seq![s[0]] + s.drop_first() =~= s);
    }
}

#[verifier::rlimit(50)]
proof fn lemma_org_entries_snoc(os: Seq<Organization>, k: int)
    requires
        1 <= k < os.len(),
    ensures
        render_org_entries(os.take(k + 1)) == render_org_entries(os.take(k)) + ",\n    "@
            + render_org_entry(os[k]),
    decreases k,
{
    let a = os.take(k + 1);
    let b = os.take(k);
    if k == 1 {
        assert(a.drop_first() =~= seq![os[1]]);
        assert(b =~= seq![os[0]]);
        assert(a[0] == os[0]);
        assert(seq![os[1]][0] == os[1]);
        assert(render_org_entries(a.drop_first()) == render_org_entry(os[1]));
        assert(render_org_entries(b) == render_org_entry(os[0]));
        assert(render_org_entries(a) == render_org_entry(os[0]) + ",\n    "@
            + render_org_entries(a.drop_first()));
    } else {
        lemma_org_entries_snoc(os.drop_first(), k - 1);
        assert(a.drop_first() =~= os.drop_first().take(k));
        assert(b.drop_first() =~= os.drop_first().take(k - 1));
        assert(os.drop_first()[k - 1] == os[k]);
        assert(a[0] == os[0]);
        assert(b[0] == os[0]);
        assert((render_org_entry(os[0]) + ",\n    "@ + (render_org_entries(
            os.drop_first().take(k - 1),
        ) + ",\n    "@ + render_org_entry(os[k]))) =~= ((render_org_entry(os[0]) + ",\n    "@
            + render_org_entries(os.drop_first().take(k - 1))) + ",\n    "@ + render_org_entry(
            os[k],
        )));
    }
}

/// Render a configuration as its pretty-printed document.
#[verifier::rlimit(50)]
pub fn render_config(c: &Config) -> (r: String)
    ensures
        r@ == render_config_spec(c.organizations@),
        blobs_ok(c.organizations@),
{
    let mut out = String::new();
    out.append("{\n  \"organizations\": ");
    if c.organizations.len() == 0 {
        out.append("{}");
    } else {
        out.append("{\n    ");
        let ghost head = out@;
        let mut k: usize = 0;
        while k < c.organizations.len()
            invariant
                1 <= c.organizations@.len(),
                k <= c.organizations@.len(),
                k == 0 ==> out@ == head,
                k >= 1 ==> out@ == head + render_org_entries(c.organizations@.take(k as int)),
                forall|a: int, j: int|
                    0 <= a < k && 0 <= j < c.organizations@[a].projects@.len() ==> b64_ok(
                        (#[trigger] c.organizations@[a].projects@[j]).name@,
                    ),
            decreases c.organizations@.len() - k,
        {
            if k > 0 {
                out.append(",\n    ");
            }
            let ghost before = out@;
            render_quoted_into(&mut out, c.organizations[k].name.as_str());
            out.append(": {\n      \"name\": ");
            render_quoted_into(&mut out, c.organizations[k].name.as_str());
            out.append(",\n      \"slug\": ");
            render_quoted_into(&mut out, c.organizations[k].slug.as_str());
            out.append(",\n      \"projects\": ");
            render_projects_into(&mut out, &c.organizations[k].projects);
            out.append("\n    }");
            proof {
                assert(out@ =~= before + render_org_entry(c.organizations@[k as int]));
                if k == 0 {
                    assert(c.organizations@.take(1) =~= seq![c.organizations@[0]]);
                    assert(out@ =~= head + render_org_entries(c.organizations@.take(1)));
                } else {
                    lemma_org_entries_snoc(c.organizations@, k as int);
                    assert(out@ =~= head + render_org_entries(c.organizations@.take(k + 1 as int)));
                }
            }
            k = k + 1;
        }
        out.append("\n  }");
        proof {
            assert(c.organizations@.take(c.organizations@.len() as int) =~= c.organizations@);
        }
    }
    out.append("\n}");
    proof {
        assert(out@ =~= render_config_spec(c.organizations@));
    }
    out
}


// ---------------------------------------------------------------------------
// The executable parser
// ---------------------------------------------------------------------------
fn is_ws_exec(c: char) -> (r: bool)
    ensures
        r == is_ws(c),
{
    c == ' ' || c == '\n' || c == '\r' || c == '\t'
}

fn skip_ws_exec(t: &Vec<char>, i: usize) -> (r: usize)
    requires
        i <= t@.len(),
    ensures
        r as int == skip_ws(t@, i as int),
        i <= r <= t@.len(),
    decreases t@.len() - i,
{
    if i < t.len() && is_ws_exec(t[i]) {
        skip_ws_exec(t, i + 1)
    } else {
        i
    }
}

fn hex_val_exec(c: char) -> (r: Option<u32>)
    ensures
        match r {
            Some(v) => hex_val(c) == Some(v as int) && v < 16,
            None => hex_val(c) is None,
        },
{
    if '0' <= c && c <= '9' {
        Some(c as u32 - '0' as u32)
    } else if 'a' <= c && c <= 'f' {
        Some(c as u32 - 'a' as u32 + 10)
    } else if 'A' <= c && c <= 'F' {
        Some(c as u32 - 'A' as u32 + 10)
    } else {
        None
    }
}

fn parse_string_body_exec(t: &Vec<char>, i: usize) -> (r: Option<(Vec<char>, usize)>)
    requires
        i <= t@.len(),
    ensures
        r is Some <==> parse_string_body(t@, i as int) is Some,
        r matches Some((v, j)) ==> parse_string_body(t@, i as int) == Some(
            (v@, j as int),
        ) && j <= t@.len(),
    decreases t@.len() - i,
{
    if i >= t.len() {
        None
    } else if t[i] == '"' {
        Some((Vec::new(), i + 1))
    } else if t[i] == '\\' {
        if t.len() - i >= 2 {
            if t[i + 1] == 'u' {
                if t.len() - i >= 6 {
                    let h1 = hex_val_exec(t[i + 2]);
                    let h2 = hex_val_exec(t[i + 3]);
                    let h3 = hex_val_exec(t[i + 4]);
                    let h4 = hex_val_exec(t[i + 5]);
                    match (h1, h2, h3, h4) {
                        (Some(a), Some(b), Some(c), Some(d)) => {
                            let v: u32 = 4096 * a + 256 * b + 16 * c + d;
                            if v < 256 {
                                match parse_string_body_exec(t, i + 6) {
                                    Some((mut s, j)) => {
                                        let ch: char = (v as u8) as char;
                                        proof {
                                            assert(ch == (v as u32) as char);
                                        }
                                        s.insert(0, ch);
                                        proof {
                                            assert(s@ =~= seq![(v as u32) as char]
                                                + s@.drop_first());
                                        }
                                        Some((s, j))
                                    },
                                    None => None,
                                }
                            } else {
                                None
                            }
                        },
                        _ => None,
                    }
                } else {
                    None
                }
            } else {
                let e = t[i + 1];
                let unescaped: Option<char> = if e == '"' { Some('"') }
                else if e == '\\' { Some('\\') }
                else if e == '/' { Some('/') }
                else if e == 'n' { Some('\n') }
                else if e == 't' { Some('\t') }
                else if e == 'r' { Some('\r') }
                else if e == 'b' { Some(8u32 as u8 as char) }
                else if e == 'f' { Some(12u32 as u8 as char) }
                else { None };
                proof {
                    match unescaped {
                        Some(c) => {
                            assert(unescape1(e) == Some(c));
                        },
                        None => {
                            assert(unescape1(e) is None);
                        },
                    }
                }
                match unescaped {
                    Some(c) => match parse_string_body_exec(t, i + 2) {
                        Some((mut s, j)) => {
                            s.insert(0, c);
                            proof {
                                assert(s@ =~= seq![c] + s@.drop_first());
                            }
                            Some((s, j))
                        },
                        None => None,
                    },
                    None => None,
                }
            }
        } else {
            None
        }
    } else {
        let c = t[i];
        match parse_string_body_exec(t, i + 1) {
            Some((mut s, j)) => {
                s.insert(0, c);
                proof {
                    assert(s@ =~= seq![c] + s@.drop_first());
                }
                Some((s, j))
            },
            None => None,
        }
    }
}

fn parse_json_string_exec(t: &Vec<char>, i: usize) -> (r: Option<(Vec<char>, usize)>)
    requires
        i <= t@.len(),
    ensures
        r is Some <==> parse_json_string(t@, i as int) is Some,
        r matches Some((v, j)) ==> parse_json_string(t@, i as int) == Some(
            (v@, j as int),
        ) && j <= t@.len(),
{
    let j = skip_ws_exec(t, i);
    if j < t.len() && t[j] == '"' {
        parse_string_body_exec(t, j + 1)
    } else {
        None
    }
}

fn expect_char_exec(t: &Vec<char>, i: usize, c: char) -> (r: Option<usize>)
    requires
        i <= t@.len(),
    ensures
        r is Some <==> expect_char(t@, i as int, c) is Some,
        r matches Some(j) ==> expect_char(t@, i as int, c) == Some(j as int) && j <= t@.len(),
{
    let j = skip_ws_exec(t, i);
    if j < t.len() && t[j] == c {
        Some(j + 1)
    } else {
        None
    }
}

fn expect_lit_exec(t: &Vec<char>, i: usize, lit: &str) -> (r: Option<usize>)
    requires
        i <= t@.len(),
    ensures
        r is Some <==> expect_lit(t@, i as int, lit@) is Some,
        r matches Some(j) ==> expect_lit(t@, i as int, lit@) == Some(j as int) && j <= t@.len(),
{
    let j = skip_ws_exec(t, i);
    let n = lit.unicode_len();
    if n > t.len() - j {
        proof {
            assert(expect_lit(t@, i as int, lit@) is None);
        }
        return None;
    }
    let mut k: usize = 0;
    while k < n
        invariant
            t@.len() <= usize::MAX,
            j + n <= t@.len(),
            n == lit@.len(),
            k <= n,
            j as int == skip_ws(t@, i as int),
            forall|m: int| 0 <= m < k ==> t@[j + m] == lit@[m],
        decreases n - k,
    {
        proof {
            assert(j + k < t@.len());
        }
        if t[j + k] != lit.get_char(k) {
            proof {
                assert(t@.subrange(j as int, j + n as int)[k as int] != lit@[k as int]);
                assert(t@.subrange(j as int, j + n as int) != lit@);
            }
            return None;
        }
        k = k + 1;
    }
    proof {
        assert(t@.subrange(j as int, j + n as int) =~= lit@);
    }
    Some(j + n)
}

fn vec_chars_eq(a: &Vec<char>, b: &Vec<char>) -> (r: bool)
    ensures
        r == (a@ == b@),
{
    if a.len() != b.len() {
        proof {
            assert(a@ != b@);
        }
        return false;
    }
    let mut k: usize = 0;
    while k < a.len()
        invariant
            a@.len() == b@.len(),
            k <= a@.len(),
            forall|m: int| 0 <= m < k ==> a@[m] == b@[m],
        decreases a@.len() - k,
    {
        if a[k] != b[k] {
            proof {
                assert(a@ != b@);
            }
            return false;
        }
        k = k + 1;
    }
    proof {
        assert(a@ =~= b@);
    }
    true
}

fn parse_project_obj_exec(t: &Vec<char>, i: usize, slug_key: &Vec<char>) -> (r: Option<
    (Vec<u8>, usize),
>)
    requires
        i <= t@.len(),
    ensures
        r is Some <==> parse_project_obj(t@, i as int, slug_key@) is Some,
        r matches Some((blob, j)) ==> parse_project_obj(t@, i as int, slug_key@) == Some(
            (blob@, j as int),
        ) && j <= t@.len(),
{
    let j1 = match expect_char_exec(t, i, '{') {
        Some(j) => j,
        None => { return None; },
    };
    let j2 = match expect_lit_exec(t, j1, "\"name\"") {
        Some(j) => j,
        None => { return None; },
    };
    let j3 = match expect_char_exec(t, j2, ':') {
        Some(j) => j,
        None => { return None; },
    };
    let (b64v, j4) = match parse_json_string_exec(t, j3) {
        Some(p) => p,
        None => { return None; },
    };
    let b64s = chars_to_string(&b64v);
    let blob = match crate::b64::b64_decode(b64s.as_str()) {
        Ok(b) => b,
        Err(_) => { return None; },
    };
    let j5 = match expect_char_exec(t, j4, ',') {
        Some(j) => j,
        None => { return None; },
    };
    let j6 = match expect_lit_exec(t, j5, "\"slug\"") {
        Some(j) => j,
        None => { return None; },
    };
    let j7 = match expect_char_exec(t, j6, ':') {
        Some(j) => j,
        None => { return None; },
    };
    let (s2, j8) = match parse_json_string_exec(t, j7) {
        Some(p) => p,
        None => { return None; },
    };
    if !vec_chars_eq(&s2, slug_key) {
        return None;
    }
    let j9 = match expect_char_exec(t, j8, '}') {
        Some(j) => j,
        None => { return None; },
    };
    Some((blob, j9))
}

fn contains_project_slug(ps: &Vec<EncryptedProject>, slug: &Vec<char>) -> (r: bool)
    ensures
        r == projects_map(ps@).contains_key(slug@),
{
    proof {
        crate::config::lemma_projects_map_contains(ps@, slug@);
    }
    let mut k: usize = 0;
    while k < ps.len()
        invariant
            k <= ps@.len(),
            forall|m: int| 0 <= m < k ==> (#[trigger] ps@[m]).slug@ != slug@,
        decreases ps@.len() - k,
    {
        let sv = chars_to_string(slug);
        if crate::config::str_eq(ps[k].slug.as_str(), sv.as_str()) {
            proof {
                crate::config::lemma_projects_map_contains(ps@, slug@);
                assert(ps@[k as int].slug@ == slug@);
            }
            return true;
        }
        k = k + 1;
    }
    false
}

fn parse_project_entries_exec(t: &Vec<char>, i: usize) -> (r: Option<
    (Vec<EncryptedProject>, usize),
>)
    requires
        i <= t@.len(),
    ensures
        r is Some <==> parse_project_entries(t@, i as int) is Some,
        r matches Some((v, j)) ==> {
            &&& parse_project_entries(t@, i as int) matches Some((m, js))
            &&& projects_map(v@) == m
            &&& js == j as int
            &&& j <= t@.len()
            &&& project_slugs_unique(v@)
        },
    decreases t@.len() - i,
{
    let (slug, j1) = match parse_json_string_exec(t, i) {
        Some(p) => p,
        None => { return None; },
    };
    let j2 = match expect_char_exec(t, j1, ':') {
        Some(j) => j,
        None => { return None; },
    };
    let (blob, j3) = match parse_project_obj_exec(t, j2, &slug) {
        Some(p) => p,
        None => { return None; },
    };
    let j4 = skip_ws_exec(t, j3);
    let entry = EncryptedProject { name: blob, slug: chars_to_string(&slug) };
    if j4 < t.len() && t[j4] == ',' {
        proof {
            lemma_json_string_adv(t@, i as int);
            lemma_expect_char_adv(t@, j1 as int, ':');
            lemma_project_obj_adv(t@, j2 as int, slug@);
        }
        match parse_project_entries_exec(t, j4 + 1) {
            Some((mut v, j5)) => {
                if contains_project_slug(&v, &slug) {
                    return None;
                }
                proof {
                    crate::config::lemma_projects_map_contains(v@, slug@);
                    lemma_projects_map_cons(entry, v@);
                    assert(seq![entry] + v@ =~= v@.insert(0, entry));
                }
                v.insert(0, entry);
                Some((v, j5))
            },
            None => None,
        }
    } else if j4 < t.len() && t[j4] == '}' {
        let mut v: Vec<EncryptedProject> = Vec::new();
        v.push(entry);
        proof {
            reveal_with_fuel(projects_map, 2);
            assert(v@.drop_last() =~= Seq::<EncryptedProject>::empty());
            assert(projects_map(v@) =~= map![slug@ => blob@]);
        }
        Some((v, j4 + 1))
    } else {
        None
    }
}

proof fn lemma_projects_map_cons(e: EncryptedProject, ps: Seq<EncryptedProject>)
    requires
        forall|m: int| 0 <= m < ps.len() ==> (#[trigger] ps[m]).slug@ != e.slug@,
    ensures
        projects_map(seq![e] + ps) == projects_map(ps).insert(e.slug@, e.name@),
    decreases ps.len(),
{
    let c = seq![e] + ps;
    if ps.len() == 0 {
        reveal_with_fuel(projects_map, 2);
        assert(c.drop_last() =~= Seq::<EncryptedProject>::empty());
        assert(c.last() == e);
        assert(projects_map(c) =~= projects_map(ps).insert(e.slug@, e.name@));
    } else {
        lemma_projects_map_cons(e, ps.drop_last());
        assert(c.drop_last() =~= seq![e] + ps.drop_last());
        assert(c.last() == ps.last());
        assert(projects_map(c) == projects_map(ps.drop_last()).insert(e.slug@, e.name@).insert(
            ps.last().slug@,
            ps.last().name@,
        ));
        assert(ps.last().slug@ != e.slug@);
        assert(projects_map(ps.drop_last()).insert(e.slug@, e.name@).insert(
            ps.last().slug@,
            ps.last().name@,
        ) =~= projects_map(ps).insert(e.slug@, e.name@));
    }
}

proof fn lemma_orgs_map_cons(o: Organization, os: Seq<Organization>)
    requires
        forall|m: int| 0 <= m < os.len() ==> (#[trigger] os[m]).name@ != o.name@,
    ensures
        orgs_map(seq![o] + os) == orgs_map(os).insert(o.name@, o@),
    decreases os.len(),
{
    let c = seq![o] + os;
    if os.len() == 0 {
        reveal_with_fuel(orgs_map, 2);
        assert(c.drop_last() =~= Seq::<Organization>::empty());
        assert(c.last() == o);
        assert(orgs_map(c) =~= orgs_map(os).insert(o.name@, o@));
    } else {
        lemma_orgs_map_cons(o, os.drop_last());
        assert(c.drop_last() =~= seq![o] + os.drop_last());
        assert(c.last() == os.last());
        assert(orgs_map(c) == orgs_map(os.drop_last()).insert(o.name@, o@).insert(
            os.last().name@,
            os.last()@,
        ));
        assert(os.last().name@ != o.name@);
        assert(orgs_map(os.drop_last()).insert(o.name@, o@).insert(
            os.last().name@,
            os.last()@,
        ) =~= orgs_map(os).insert(o.name@, o@));
    }
}

fn parse_projects_exec(t: &Vec<char>, i: usize) -> (r: Option<(Vec<EncryptedProject>, usize)>)
    requires
        i <= t@.len(),
    ensures
        r is Some <==> parse_projects(t@, i as int) is Some,
        r matches Some((v, j)) ==> {
            &&& parse_projects(t@, i as int) matches Some((m, js))
            &&& projects_map(v@) == m
            &&& js == j as int
            &&& j <= t@.len()
            &&& project_slugs_unique(v@)
        },
{
    let j1 = match expect_char_exec(t, i, '{') {
        Some(j) => j,
        None => { return None; },
    };
    let j2 = skip_ws_exec(t, j1);
    if j2 < t.len() && t[j2] == '}' {
        let v: Vec<EncryptedProject> = Vec::new();
        proof {
            assert(projects_map(v@) =~= Map::<Seq<char>, Seq<u8>>::empty());
        }
        Some((v, j2 + 1))
    } else {
        parse_project_entries_exec(t, j1)
    }
}

fn parse_org_obj_exec(t: &Vec<char>, i: usize, name_key: &Vec<char>) -> (r: Option<
    (Organization, usize),
>)
    requires
        i <= t@.len(),
    ensures
        r is Some <==> parse_org_obj(t@, i as int, name_key@) is Some,
        r matches Some((o, j)) ==> {
            &&& parse_org_obj(t@, i as int, name_key@) matches Some((ov, js))
            &&& o@ == ov
            &&& o.name@ == name_key@
            &&& o.wf()
            &&& js == j as int
            &&& j <= t@.len()
        },
{
    let j1 = match expect_char_exec(t, i, '{') {
        Some(j) => j,
        None => { return None; },
    };
    let j2 = match expect_lit_exec(t, j1, "\"name\"") {
        Some(j) => j,
        None => { return None; },
    };
    let j3 = match expect_char_exec(t, j2, ':') {
        Some(j) => j,
        None => { return None; },
    };
    let (n, j4) = match parse_json_string_exec(t, j3) {
        Some(p) => p,
        None => { return None; },
    };
    if !vec_chars_eq(&n, name_key) {
        return None;
    }
    let j5 = match expect_char_exec(t, j4, ',') {
        Some(j) => j,
        None => { return None; },
    };
    let j6 = match expect_lit_exec(t, j5, "\"slug\"") {
        Some(j) => j,
        None => { return None; },
    };
    let j7 = match expect_char_exec(t, j6, ':') {
        Some(j) => j,
        None => { return None; },
    };
    let (sl, j8) = match parse_json_string_exec(t, j7) {
        Some(p) => p,
        None => { return None; },
    };
    let j9 = match expect_char_exec(t, j8, ',') {
        Some(j) => j,
        None => { return None; },
    };
    let j10 = match expect_lit_exec(t, j9, "\"projects\"") {
        Some(j) => j,
        None => { return None; },
    };
    let j11 = match expect_char_exec(t, j10, ':') {
        Some(j) => j,
        None => { return None; },
    };
    let (ps, j12) = match parse_projects_exec(t, j11) {
        Some(p) => p,
        None => { return None; },
    };
    let j13 = match expect_char_exec(t, j12, '}') {
        Some(j) => j,
        None => { return None; },
    };
    let org = Organization {
        name: chars_to_string(name_key),
        slug: chars_to_string(&sl),
        projects: ps,
    };
    Some((org, j13))
}

fn contains_org_name(os: &Vec<Organization>, name: &Vec<char>) -> (r: bool)
    ensures
        r == orgs_map(os@).contains_key(name@),
{
    proof {
        crate::config::lemma_orgs_map_contains(os@, name@);
    }
    let mut k: usize = 0;
    while k < os.len()
        invariant
            k <= os@.len(),
            forall|m: int| 0 <= m < k ==> (#[trigger] os@[m]).name@ != name@,
        decreases os@.len() - k,
    {
        let nv = chars_to_string(name);
        if crate::config::str_eq(os[k].name.as_str(), nv.as_str()) {
            proof {
                crate::config::lemma_orgs_map_contains(os@, name@);
                assert(os@[k as int].name@ == name@);
            }
            return true;
        }
        k = k + 1;
    }
    false
}

fn parse_org_entries_exec(t: &Vec<char>, i: usize) -> (r: Option<(Vec<Organization>, usize)>)
    requires
        i <= t@.len(),
    ensures
        r is Some <==> parse_org_entries(t@, i as int) is Some,
        r matches Some((v, j)) ==> {
            &&& parse_org_entries(t@, i as int) matches Some((m, js))
            &&& orgs_map(v@) == m
            &&& js == j as int
            &&& j <= t@.len()
            &&& org_names_unique(v@)
            &&& forall|m2: int| 0 <= m2 < v@.len() ==> (#[trigger] v@[m2]).wf()
        },
    decreases t@.len() - i,
{
    let (name, j1) = match parse_json_string_exec(t, i) {
        Some(p) => p,
        None => { return None; },
    };
    let j2 = match expect_char_exec(t, j1, ':') {
        Some(j) => j,
        None => { return None; },
    };
    let (org, j3) = match parse_org_obj_exec(t, j2, &name) {
        Some(p) => p,
        None => { return None; },
    };
    let j4 = skip_ws_exec(t, j3);
    if j4 < t.len() && t[j4] == ',' {
        proof {
            lemma_json_string_adv(t@, i as int);
            lemma_expect_char_adv(t@, j1 as int, ':');
            lemma_org_obj_adv(t@, j2 as int, name@);
        }
        match parse_org_entries_exec(t, j4 + 1) {
            Some((mut v, j5)) => {
                if contains_org_name(&v, &name) {
                    return None;
                }
                proof {
                    crate::config::lemma_orgs_map_contains(v@, name@);
                    lemma_orgs_map_cons(org, v@);
                    assert(seq![org] + v@ =~= v@.insert(0, org));
                }
                v.insert(0, org);
                Some((v, j5))
            },
            None => None,
        }
    } else if j4 < t.len() && t[j4] == '}' {
        let mut v: Vec<Organization> = Vec::new();
        v.push(org);
        proof {
            reveal_with_fuel(orgs_map, 2);
            assert(v@.drop_last() =~= Seq::<Organization>::empty());
            assert(orgs_map(v@) =~= map![name@ => org@]);
        }
        Some((v, j4 + 1))
    } else {
        None
    }
}

fn parse_orgs_exec(t: &Vec<char>, i: usize) -> (r: Option<(Vec<Organization>, usize)>)
    requires
        i <= t@.len(),
    ensures
        r is Some <==> parse_orgs(t@, i as int) is Some,
        r matches Some((v, j)) ==> {
            &&& parse_orgs(t@, i as int) matches Some((m, js))
            &&& orgs_map(v@) == m
            &&& js == j as int
            &&& j <= t@.len()
            &&& org_names_unique(v@)
            &&& forall|m2: int| 0 <= m2 < v@.len() ==> (#[trigger] v@[m2]).wf()
        },
{
    let j1 = match expect_char_exec(t, i, '{') {
        Some(j) => j,
        None => { return None; },
    };
    let j2 = skip_ws_exec(t, j1);
    if j2 < t.len() && t[j2] == '}' {
        let v: Vec<Organization> = Vec::new();
        proof {
            assert(orgs_map(v@) =~= Map::<Seq<char>, OrgView>::empty());
        }
        Some((v, j2 + 1))
    } else {
        parse_org_entries_exec(t, j1)
    }
}

/// Parse a whole document into a configuration; `None` is a parse failure.
pub fn parse_config(t: &Vec<char>) -> (r: Option<Config>)
    ensures
        r is Some <==> parse_config_spec(t@) is Some,
        r matches Some(c) ==> parse_config_spec(t@) == Some(c@) && c.wf(),
{
    let j1 = match expect_char_exec(t, 0, '{') {
        Some(j) => j,
        None => { return None; },
    };
    let j2 = match expect_lit_exec(t, j1, "\"organizations\"") {
        Some(j) => j,
        None => { return None; },
    };
    let j3 = match expect_char_exec(t, j2, ':') {
        Some(j) => j,
        None => { return None; },
    };
    let (v, j4) = match parse_orgs_exec(t, j3) {
        Some(p) => p,
        None => { return None; },
    };
    let j5 = match expect_char_exec(t, j4, '}') {
        Some(j) => j,
        None => { return None; },
    };
    if skip_ws_exec(t, j5) == t.len() {
        Some(Config { organizations: v })
    } else {
        None
    }
}


// ---------------------------------------------------------------------------
// The round trip: parsing inverts rendering
// ---------------------------------------------------------------------------
/// The text carries `piece` verbatim at position `i`.
pub open spec fn text_at(t: Seq<char>, i: int, piece: Seq<char>) -> bool {
    &&& 0 <= i
    &&& i + piece.len() <= t.len()
    &&& t.subrange(i, i + piece.len()) == piece
}

proof fn lemma_text_at_split(t: Seq<char>, i: int, a: Seq<char>, b: Seq<char>)
    requires
        text_at(t, i, a + b),
    ensures
        text_at(t, i, a),
        text_at(t, i + a.len(), b),
{
    let ab = a + b;
    assert forall|k: int| 0 <= k < a.len() implies t.subrange(i, i + a.len())[k] == a[k] by {
        assert(t.subrange(i, i + ab.len())[k] == ab[k]);
    }
    assert(t.subrange(i, i + a.len()) =~= a);
    assert forall|k: int| 0 <= k < b.len() implies t.subrange(
        i + a.len(),
        i + a.len() + b.len(),
    )[k] == b[k] by {
        assert(t.subrange(i, i + ab.len())[a.len() + k] == ab[a.len() + k]);
    }
    assert(t.subrange(i + a.len(), i + a.len() + b.len()) =~= b);
}

proof fn lemma_text_at_index(t: Seq<char>, i: int, piece: Seq<char>, k: int)
    requires
        text_at(t, i, piece),
        0 <= k < piece.len(),
    ensures
        t[i + k] == piece[k],
{
    assert(t.subrange(i, i + piece.len())[k] == piece[k]);
}

proof fn lemma_hexdig_val(d: int)
    requires
        0 <= d < 16,
    ensures
        hex_val(hexdig_char(d)) == Some(d),
{
}


/// Parsing a rendered string body (with its closing quote) gives the string
/// back.
proof fn lemma_parse_render_body(t: Seq<char>, i: int, s: Seq<char>)
    requires
        text_at(t, i, render_string(s) + seq!['"']),
    ensures
        parse_string_body(t, i) == Some((s, i + render_string(s).len() + 1)),
    decreases s.len(),
{
    let whole = render_string(s) + seq!['"'];
    if s.len() == 0 {
        assert(render_string(s) == Seq::<char>::empty());
        assert(t[i] == whole[0]);
        assert(t[i] == '"');
    } else {
        let c = s[0];
        let rest = s.drop_first();
        assert(render_string(s) == escape_char(c) + render_string(rest));
        assert((escape_char(c) + render_string(rest)) + seq!['"'] =~= escape_char(c) + (
        render_string(rest) + seq!['"']));
        lemma_text_at_split(t, i, escape_char(c), render_string(rest) + seq!['"']);
        let i2 = i + escape_char(c).len();
        lemma_parse_render_body(t, i2, rest);
        assert forall|k: int| 0 <= k < escape_char(c).len() implies t[i + k] == escape_char(
            c,
        )[k] by {
            assert(t.subrange(i, i + escape_char(c).len())[k] == escape_char(c)[k]);
        }
        if c == '"' {
            assert(t[i] == '\\');
            assert(t[i + 1] == '"');
            assert(unescape1(t[i + 1]) == Some('"'));
            assert(seq!['"'] + rest =~= s);
        } else if c == '\\' {
            assert(t[i] == '\\');
            assert(t[i + 1] == '\\');
            assert(unescape1(t[i + 1]) == Some('\\'));
            assert(seq!['\\'] + rest =~= s);
        } else if (c as u32) < 32 {
            let hi = ((c as u32) / 16) as int;
            let lo = ((c as u32) % 16) as int;
            assert(t[i] == '\\');
            assert(t[i + 1] == 'u');
            assert(t[i + 2] == '0');
            assert(t[i + 3] == '0');
            assert(t[i + 4] == hexdig_char(hi));
            assert(t[i + 5] == hexdig_char(lo));
            lemma_hexdig_val(hi);
            lemma_hexdig_val(lo);
            assert(hex_val(t[i + 2]) == Some(0int));
            assert(hex_val(t[i + 3]) == Some(0int));
            assert(hex4(t, i + 2) == Some(16 * hi + lo));
            assert(16 * hi + lo == c as u32) by {
                assert((c as u32) / 16 * 16 + (c as u32) % 16 == c as u32);
            }
            vstd::utf8::char_u32_cast(c, c as u32);
            assert(((16 * hi + lo) as u32) as char == c);
            assert(seq![c] + rest =~= s);
        } else {
            assert(escape_char(c) =~= seq![c]);
            assert(t[i + 0] == escape_char(c)[0]);
            assert(t[i] == c);
            assert(c != '"' && c != '\\');
            assert(seq![c] + rest =~= s);
        }
    }
}





/// A blob whose base64 text decodes back to it and is made of alphabet
/// characters only; every call of the encoder establishes this.
pub open spec fn b64_ok(b: Seq<u8>) -> bool {
    &&& b64_decoded(b64_of(b)) == Some(b)
    &&& forall|k: int|
        0 <= k < b64_of(b).len() ==> crate::b64::is_b64_char(#[trigger] b64_of(b)[k])
}

/// Every blob of every organization is `b64_ok`.
pub open spec fn blobs_ok(os: Seq<Organization>) -> bool {
    forall|i: int, j: int|
        0 <= i < os.len() && 0 <= j < os[i].projects@.len() ==> b64_ok(
            (#[trigger] os[i].projects@[j]).name@,
        )
}

/// Parsing at a whitespace run followed by a rendered string value gives the
/// string back.
proof fn lemma_parse_render_string_ws(t: Seq<char>, i: int, q: int, s: Seq<char>)
    requires
        0 <= i <= q,
        forall|m: int| i <= m < q ==> is_ws(#[trigger] t[m]),
        text_at(t, q, quoted(s)),
    ensures
        parse_json_string(t, i) == Some((s, q + quoted(s).len())),
{
    assert(quoted(s) =~= seq!['"'] + (render_string(s) + seq!['"']));
    lemma_text_at_split(t, q, seq!['"'], render_string(s) + seq!['"']);
    assert(t.subrange(q, q + 1)[0] == '"');
    assert(t[q] == '"');
    lemma_skip_ws_to(t, i, q);
    lemma_parse_render_body(t, q + 1, s);
}


/// After a rendered project entry's key, the colon and the project object
/// parse back to the entry's blob.
#[verifier::rlimit(100)]
proof fn lemma_parse_render_project_entry(t: Seq<char>, i: int, slug: Seq<char>, blob: Seq<u8>)
    requires
        text_at(t, i, render_project_entry(slug, blob)),
        b64_ok(blob),
    ensures
        text_at(t, i, quoted(slug)),
        ({
            let p1 = i + quoted(slug).len();
            let end = i + render_project_entry(slug, blob).len();
            &&& expect_char(t, p1, ':') == Some(p1 + 1)
            &&& parse_project_obj(t, p1 + 1, slug) == Some((blob, end))
        }),
{
    reveal_strlit(": {\n          \"name\": ");
    reveal_strlit(",\n          \"slug\": ");
    reveal_strlit("\n        }");
    reveal_strlit("\"name\"");
    reveal_strlit("\"slug\"");
    let l0 = quoted(slug);
    let la = ": {\n          \"name\": "@;
    let qb = quoted(b64_of(blob));
    let lb = ",\n          \"slug\": "@;
    let lc = "\n        }"@;
    assert(la.len() == 22);
    assert(lb.len() == 20);
    assert(lc.len() == 10);
    let e = render_project_entry(slug, blob);
    assert(e =~= l0 + (la + (qb + (lb + (l0 + lc)))));
    lemma_text_at_split(t, i, l0, la + (qb + (lb + (l0 + lc))));
    let p1 = i + l0.len();
    lemma_text_at_split(t, p1, la, qb + (lb + (l0 + lc)));
    let p2 = p1 + 22;
    lemma_text_at_split(t, p2, qb, lb + (l0 + lc));
    let p3 = p2 + qb.len();
    lemma_text_at_split(t, p3, lb, l0 + lc);
    let p4 = p3 + 20;
    lemma_text_at_split(t, p4, l0, lc);
    let p5 = p4 + l0.len();
    // ": " then "{"
    lemma_text_at_index(t, p1, la, 0);
    assert(t[p1] == ':');
    assert(skip_ws(t, p1) == p1);
    assert(expect_char(t, p1, ':') == Some(p1 + 1));
    lemma_text_at_index(t, p1, la, 1);
    lemma_text_at_index(t, p1, la, 2);
    assert(t[p1 + 1] == ' ');
    assert(t[p1 + 2] == '{');
    assert forall|m: int| p1 + 1 <= m < p1 + 2 implies is_ws(#[trigger] t[m]) by {
        lemma_text_at_index(t, p1, la, m - p1);
    }
    lemma_skip_ws_to(t, p1 + 1, p1 + 2);
    assert(expect_char(t, p1 + 1, '{') == Some(p1 + 3));
    // "\n          " then "\"name\""
    assert forall|m: int| p1 + 3 <= m < p1 + 14 implies is_ws(#[trigger] t[m]) by {
        lemma_text_at_index(t, p1, la, m - p1);
    }
    lemma_text_at_index(t, p1, la, 14);
    assert(t[p1 + 14] == '"');
    lemma_skip_ws_to(t, p1 + 3, p1 + 14);
    assert(t.subrange(p1 + 14, p1 + 20) =~= "\"name\""@) by {
        assert forall|k: int| 0 <= k < 6 implies t.subrange(p1 + 14, p1 + 20)[k] == "\"name\""@[k]
        by {
            lemma_text_at_index(t, p1, la, 14 + k);
            assert(t.subrange(p1 + 14, p1 + 20)[k] == t[p1 + (14 + k)]);
        }
    }
    assert(expect_lit(t, p1 + 3, "\"name\""@) == Some(p1 + 20));
    // ":" then " " then the base64 string
    lemma_text_at_index(t, p1, la, 20);
    lemma_text_at_index(t, p1, la, 21);
    assert(t[p1 + 20] == ':');
    assert(skip_ws(t, p1 + 20) == p1 + 20);
    assert(expect_char(t, p1 + 20, ':') == Some(p1 + 21));
    assert forall|m: int| p1 + 21 <= m < p2 implies is_ws(#[trigger] t[m]) by {
        lemma_text_at_index(t, p1, la, m - p1);
    }
    lemma_parse_render_string_ws(t, p1 + 21, p2, b64_of(blob));
    assert(parse_json_string(t, p1 + 21) == Some((b64_of(blob), p3)));
    // "," then "\n          " then "\"slug\""
    lemma_text_at_index(t, p3, lb, 0);
    assert(t[p3] == ',');
    assert(skip_ws(t, p3) == p3);
    assert(expect_char(t, p3, ',') == Some(p3 + 1));
    assert forall|m: int| p3 + 1 <= m < p3 + 12 implies is_ws(#[trigger] t[m]) by {
        lemma_text_at_index(t, p3, lb, m - p3);
    }
    lemma_text_at_index(t, p3, lb, 12);
    assert(t[p3 + 12] == '"');
    lemma_skip_ws_to(t, p3 + 1, p3 + 12);
    assert(t.subrange(p3 + 12, p3 + 18) =~= "\"slug\""@) by {
        assert forall|k: int| 0 <= k < 6 implies t.subrange(p3 + 12, p3 + 18)[k] == "\"slug\""@[k]
        by {
            lemma_text_at_index(t, p3, lb, 12 + k);
            assert(t.subrange(p3 + 12, p3 + 18)[k] == t[p3 + (12 + k)]);
        }
    }
    assert(expect_lit(t, p3 + 1, "\"slug\""@) == Some(p3 + 18));
    // ":" then " " then the slug again
    lemma_text_at_index(t, p3, lb, 18);
    lemma_text_at_index(t, p3, lb, 19);
    assert(t[p3 + 18] == ':');
    assert(skip_ws(t, p3 + 18) == p3 + 18);
    assert(expect_char(t, p3 + 18, ':') == Some(p3 + 19));
    assert forall|m: int| p3 + 19 <= m < p4 implies is_ws(#[trigger] t[m]) by {
        lemma_text_at_index(t, p3, lb, m - p3);
    }
    lemma_parse_render_string_ws(t, p3 + 19, p4, slug);
    assert(parse_json_string(t, p3 + 19) == Some((slug, p5)));
    // "\n        " then "}"
    assert forall|m: int| p5 <= m < p5 + 9 implies is_ws(#[trigger] t[m]) by {
        lemma_text_at_index(t, p5, lc, m - p5);
    }
    lemma_text_at_index(t, p5, lc, 9);
    assert(t[p5 + 9] == '}');
    lemma_skip_ws_to(t, p5, p5 + 9);
    assert(expect_char(t, p5, '}') == Some(p5 + 10));
    assert(parse_project_obj(t, p1 + 1, slug) == Some((blob, p5 + 10)));
    assert(p5 + 10 == i + e.len());
}


/// Parsing one or more rendered project entries, with whitespace before the
/// first and a closing brace at `q` behind the last, gives the projects map.
#[verifier::rlimit(100)]
proof fn lemma_parse_render_project_entries(
    t: Seq<char>,
    i: int,
    start: int,
    q: int,
    ps: Seq<EncryptedProject>,
)
    requires
        0 <= i <= start,
        forall|m: int| i <= m < start ==> is_ws(#[trigger] t[m]),
        text_at(t, start, render_project_entries(ps)),
        ps.len() > 0,
        project_slugs_unique(ps),
        forall|j: int| 0 <= j < ps.len() ==> b64_ok((#[trigger] ps[j]).name@),
        start + render_project_entries(ps).len() <= q < t.len(),
        forall|m: int|
            start + render_project_entries(ps).len() <= m < q ==> is_ws(#[trigger] t[m]),
        t[q] == '}',
    ensures
        parse_project_entries(t, i) == Some((projects_map(ps), q + 1)),
    decreases ps.len(),
{
    let slug0 = ps[0].slug@;
    let blob0 = ps[0].name@;
    let e0 = render_project_entry(slug0, blob0);
    let end = start + render_project_entries(ps).len();
    if ps.len() == 1 {
        assert(render_project_entries(ps) == e0);
        lemma_parse_render_project_entry(t, start, slug0, blob0);
        lemma_parse_render_string_ws(t, i, start, slug0);
        let p1 = start + quoted(slug0).len();
        assert(parse_json_string(t, i) == Some((slug0, p1)));
        assert(parse_project_obj(t, p1 + 1, slug0) == Some((blob0, end)));
        lemma_skip_ws_to(t, end, q);
        assert(skip_ws(t, end) == q);
        assert(t[q] == '}');
        assert(parse_project_entries(t, i) == Some((map![slug0 => blob0], q + 1)));
        assert(projects_map(ps) =~= map![slug0 => blob0]) by {
            reveal_with_fuel(projects_map, 2);
            assert(ps.drop_last() =~= Seq::<EncryptedProject>::empty());
        }
    } else {
        reveal_strlit(",\n        ");
        let sep = ",\n        "@;
        assert(sep.len() == 10);
        let rest = render_project_entries(ps.drop_first());
        assert(render_project_entries(ps) == e0 + sep + rest);
        assert(e0 + sep + rest =~= e0 + (sep + rest));
        lemma_text_at_split(t, start, e0, sep + rest);
        let pe = start + e0.len();
        lemma_text_at_split(t, pe, sep, rest);
        lemma_parse_render_project_entry(t, start, slug0, blob0);
        lemma_parse_render_string_ws(t, i, start, slug0);
        let p1 = start + quoted(slug0).len();
        assert(parse_json_string(t, i) == Some((slug0, p1)));
        assert(parse_project_obj(t, p1 + 1, slug0) == Some((blob0, pe)));
        lemma_text_at_index(t, pe, sep, 0);
        assert(t[pe] == ',');
        assert(skip_ws(t, pe) == pe);
        assert forall|m: int| pe + 1 <= m < pe + 10 implies is_ws(#[trigger] t[m]) by {
            lemma_text_at_index(t, pe, sep, m - pe);
        }
        assert(project_slugs_unique(ps.drop_first())) by {
            assert forall|a: int, b: int|
                0 <= a < b < ps.drop_first().len() implies ps.drop_first()[a].slug@
                != ps.drop_first()[b].slug@ by {
                assert(ps.drop_first()[a] == ps[a + 1]);
                assert(ps.drop_first()[b] == ps[b + 1]);
            }
        }
        assert forall|j: int|
            0 <= j < ps.drop_first().len() implies b64_ok(
            (#[trigger] ps.drop_first()[j]).name@,
        ) by {
            assert(ps.drop_first()[j] == ps[j + 1]);
        }
        lemma_parse_render_project_entries(t, pe + 1, pe + 10, q, ps.drop_first());
        assert(parse_project_entries(t, pe + 1) == Some(
            (projects_map(ps.drop_first()), q + 1),
        ));
        crate::config::lemma_projects_map_contains(ps.drop_first(), slug0);
        assert(!projects_map(ps.drop_first()).contains_key(slug0)) by {
            if exists|m: int|
                0 <= m < ps.drop_first().len() && (#[trigger] ps.drop_first()[m]).slug@ == slug0 {
                let m = choose|m: int|
                    0 <= m < ps.drop_first().len() && (#[trigger] ps.drop_first()[m]).slug@
                        == slug0;
                assert(ps[m + 1].slug@ == ps[0].slug@);
            }
        }
        assert forall|m: int|
            0 <= m < ps.drop_first().len() implies (#[trigger] ps.drop_first()[m]).slug@
            != ps[0].slug@ by {
            assert(ps.drop_first()[m] == ps[m + 1]);
        }
        lemma_projects_map_cons(ps[0], ps.drop_first());
        assert(seq![ps[0]] + ps.drop_first() =~= ps);
        assert(parse_project_entries(t, i) == Some((projects_map(ps), q + 1)));
    }
}

/// Parsing at a whitespace run followed by a rendered projects map gives the
/// map back.
proof fn lemma_parse_render_projects(
    t: Seq<char>,
    i: int,
    start: int,
    ps: Seq<EncryptedProject>,
)
    requires
        0 <= i <= start,
        forall|m: int| i <= m < start ==> is_ws(#[trigger] t[m]),
        text_at(t, start, render_projects(ps)),
        project_slugs_unique(ps),
        forall|j: int| 0 <= j < ps.len() ==> b64_ok((#[trigger] ps[j]).name@),
        start + render_projects(ps).len() < t.len(),
    ensures
        parse_projects(t, i) == Some((projects_map(ps), start + render_projects(ps).len())),
{
    if ps.len() == 0 {
        reveal_strlit("{}");
        assert(render_projects(ps) == "{}"@);
        assert("{}"@.len() == 2);
        lemma_text_at_index(t, start, "{}"@, 0);
        lemma_text_at_index(t, start, "{}"@, 1);
        assert(t[start] == '{');
        assert(t[start + 1] == '}');
        lemma_skip_ws_to(t, i, start);
        assert(expect_char(t, i, '{') == Some(start + 1));
        assert(skip_ws(t, start + 1) == start + 1);
        assert(parse_projects(t, i) == Some(
            (Map::<Seq<char>, Seq<u8>>::empty(), start + 2),
        ));
        assert(projects_map(ps) =~= Map::<Seq<char>, Seq<u8>>::empty());
    } else {
        reveal_strlit("{\n        ");
        reveal_strlit("\n      }");
        let po = "{\n        "@;
        let pc = "\n      }"@;
        assert(po.len() == 10);
        assert(pc.len() == 8);
        let entries = render_project_entries(ps);
        assert(render_projects(ps) == po + entries + pc);
        assert(po + entries + pc =~= po + (entries + pc));
        lemma_text_at_split(t, start, po, entries + pc);
        let s1 = start + 10;
        lemma_text_at_split(t, s1, entries, pc);
        let s2 = s1 + entries.len();
        lemma_text_at_index(t, start, po, 0);
        assert(t[start] == '{');
        lemma_skip_ws_to(t, i, start);
        assert(expect_char(t, i, '{') == Some(start + 1));
        assert forall|m: int| start + 1 <= m < s1 implies is_ws(#[trigger] t[m]) by {
            lemma_text_at_index(t, start, po, m - start);
        }
        assert(entries[0] == '"') by {
            assert(entries == render_project_entry(ps[0].slug@, ps[0].name@) || ps.len() > 1);
            if ps.len() == 1 {
            } else {
                assert(entries == render_project_entry(ps[0].slug@, ps[0].name@)
                    + ",\n        "@ + render_project_entries(ps.drop_first()));
            }
            assert(render_project_entry(ps[0].slug@, ps[0].name@)[0] == quoted(ps[0].slug@)[0]);
            assert(quoted(ps[0].slug@)[0] == '"');
        }
        lemma_text_at_index(t, s1, entries, 0);
        assert(t[s1] == '"');
        lemma_skip_ws_to(t, start + 1, s1);
        assert(skip_ws(t, start + 1) == s1);
        assert forall|m: int| s2 <= m < s2 + 7 implies is_ws(#[trigger] t[m]) by {
            lemma_text_at_index(t, s2, pc, m - s2);
        }
        lemma_text_at_index(t, s2, pc, 7);
        assert(t[s2 + 7] == '}');
        lemma_parse_render_project_entries(t, start + 1, s1, s2 + 7, ps);
        assert(parse_project_entries(t, start + 1) == Some((projects_map(ps), s2 + 8)));
        assert(s2 + 8 == start + render_projects(ps).len());
    }
}


/// After a rendered organization entry's key, the colon and the
/// organization object parse back to the organization's view.
#[verifier::rlimit(100)]
proof fn lemma_parse_render_org_entry(t: Seq<char>, i: int, o: Organization)
    requires
        text_at(t, i, render_org_entry(o)),
        o.wf(),
        forall|j: int| 0 <= j < o.projects@.len() ==> b64_ok((#[trigger] o.projects@[j]).name@),
        i + render_org_entry(o).len() < t.len(),
    ensures
        text_at(t, i, quoted(o.name@)),
        ({
            let p1 = i + quoted(o.name@).len();
            let end = i + render_org_entry(o).len();
            &&& expect_char(t, p1, ':') == Some(p1 + 1)
            &&& parse_org_obj(t, p1 + 1, o.name@) == Some((o@, end))
        }),
{
    reveal_strlit(": {\n      \"name\": ");
    reveal_strlit(",\n      \"slug\": ");
    reveal_strlit(",\n      \"projects\": ");
    reveal_strlit("\n    }");
    reveal_strlit("\"name\"");
    reveal_strlit("\"slug\"");
    reveal_strlit("\"projects\"");
    let qn = quoted(o.name@);
    let qs = quoted(o.slug@);
    let oa = ": {\n      \"name\": "@;
    let ob = ",\n      \"slug\": "@;
    let oc = ",\n      \"projects\": "@;
    let od = "\n    }"@;
    let rp = render_projects(o.projects@);
    assert(oa.len() == 18);
    assert(ob.len() == 16);
    assert(oc.len() == 20);
    assert(od.len() == 6);
    let e = render_org_entry(o);
    assert(e =~= qn + (oa + (qn + (ob + (qs + (oc + (rp + od)))))));
    lemma_text_at_split(t, i, qn, oa + (qn + (ob + (qs + (oc + (rp + od))))));
    let p1 = i + qn.len();
    lemma_text_at_split(t, p1, oa, qn + (ob + (qs + (oc + (rp + od)))));
    let p2 = p1 + 18;
    lemma_text_at_split(t, p2, qn, ob + (qs + (oc + (rp + od))));
    let p3 = p2 + qn.len();
    lemma_text_at_split(t, p3, ob, qs + (oc + (rp + od)));
    let p4 = p3 + 16;
    lemma_text_at_split(t, p4, qs, oc + (rp + od));
    let p5 = p4 + qs.len();
    lemma_text_at_split(t, p5, oc, rp + od);
    let p6 = p5 + 20;
    lemma_text_at_split(t, p6, rp, od);
    let p7 = p6 + rp.len();
    // ": " then "{"
    lemma_text_at_index(t, p1, oa, 0);
    assert(t[p1] == ':');
    assert(skip_ws(t, p1) == p1);
    assert(expect_char(t, p1, ':') == Some(p1 + 1));
    lemma_text_at_index(t, p1, oa, 1);
    lemma_text_at_index(t, p1, oa, 2);
    assert(t[p1 + 1] == ' ');
    assert(t[p1 + 2] == '{');
    assert forall|m: int| p1 + 1 <= m < p1 + 2 implies is_ws(#[trigger] t[m]) by {
        lemma_text_at_index(t, p1, oa, m - p1);
    }
    lemma_skip_ws_to(t, p1 + 1, p1 + 2);
    assert(expect_char(t, p1 + 1, '{') == Some(p1 + 3));
    // "\n      " then "\"name\""
    assert forall|m: int| p1 + 3 <= m < p1 + 10 implies is_ws(#[trigger] t[m]) by {
        lemma_text_at_index(t, p1, oa, m - p1);
    }
    lemma_text_at_index(t, p1, oa, 10);
    assert(t[p1 + 10] == '"');
    lemma_skip_ws_to(t, p1 + 3, p1 + 10);
    assert(t.subrange(p1 + 10, p1 + 16) =~= "\"name\""@) by {
        assert forall|k: int| 0 <= k < 6 implies t.subrange(p1 + 10, p1 + 16)[k] == "\"name\""@[k]
        by {
            lemma_text_at_index(t, p1, oa, 10 + k);
            assert(t.subrange(p1 + 10, p1 + 16)[k] == t[p1 + (10 + k)]);
        }
    }
    assert(expect_lit(t, p1 + 3, "\"name\""@) == Some(p1 + 16));
    // ":" then " " then the name again
    lemma_text_at_index(t, p1, oa, 16);
    lemma_text_at_index(t, p1, oa, 17);
    assert(t[p1 + 16] == ':');
    assert(skip_ws(t, p1 + 16) == p1 + 16);
    assert(expect_char(t, p1 + 16, ':') == Some(p1 + 17));
    assert forall|m: int| p1 + 17 <= m < p2 implies is_ws(#[trigger] t[m]) by {
        lemma_text_at_index(t, p1, oa, m - p1);
    }
    lemma_parse_render_string_ws(t, p1 + 17, p2, o.name@);
    assert(parse_json_string(t, p1 + 17) == Some((o.name@, p3)));
    // "," then "\n      " then "\"slug\""
    lemma_text_at_index(t, p3, ob, 0);
    assert(t[p3] == ',');
    assert(skip_ws(t, p3) == p3);
    assert(expect_char(t, p3, ',') == Some(p3 + 1));
    assert forall|m: int| p3 + 1 <= m < p3 + 8 implies is_ws(#[trigger] t[m]) by {
        lemma_text_at_index(t, p3, ob, m - p3);
    }
    lemma_text_at_index(t, p3, ob, 8);
    assert(t[p3 + 8] == '"');
    lemma_skip_ws_to(t, p3 + 1, p3 + 8);
    assert(t.subrange(p3 + 8, p3 + 14) =~= "\"slug\""@) by {
        assert forall|k: int| 0 <= k < 6 implies t.subrange(p3 + 8, p3 + 14)[k] == "\"slug\""@[k]
        by {
            lemma_text_at_index(t, p3, ob, 8 + k);
            assert(t.subrange(p3 + 8, p3 + 14)[k] == t[p3 + (8 + k)]);
        }
    }
    assert(expect_lit(t, p3 + 1, "\"slug\""@) == Some(p3 + 14));
    // ":" then " " then the slug
    lemma_text_at_index(t, p3, ob, 14);
    lemma_text_at_index(t, p3, ob, 15);
    assert(t[p3 + 14] == ':');
    assert(skip_ws(t, p3 + 14) == p3 + 14);
    assert(expect_char(t, p3 + 14, ':') == Some(p3 + 15));
    assert forall|m: int| p3 + 15 <= m < p4 implies is_ws(#[trigger] t[m]) by {
        lemma_text_at_index(t, p3, ob, m - p3);
    }
    lemma_parse_render_string_ws(t, p3 + 15, p4, o.slug@);
    assert(parse_json_string(t, p3 + 15) == Some((o.slug@, p5)));
    // "," then "\n      " then "\"projects\""
    lemma_text_at_index(t, p5, oc, 0);
    assert(t[p5] == ',');
    assert(skip_ws(t, p5) == p5);
    assert(expect_char(t, p5, ',') == Some(p5 + 1));
    assert forall|m: int| p5 + 1 <= m < p5 + 8 implies is_ws(#[trigger] t[m]) by {
        lemma_text_at_index(t, p5, oc, m - p5);
    }
    lemma_text_at_index(t, p5, oc, 8);
    assert(t[p5 + 8] == '"');
    lemma_skip_ws_to(t, p5 + 1, p5 + 8);
    assert(t.subrange(p5 + 8, p5 + 18) =~= "\"projects\""@) by {
        assert forall|k: int|
            0 <= k < 10 implies t.subrange(p5 + 8, p5 + 18)[k] == "\"projects\""@[k] by {
            lemma_text_at_index(t, p5, oc, 8 + k);
            assert(t.subrange(p5 + 8, p5 + 18)[k] == t[p5 + (8 + k)]);
        }
    }
    assert(expect_lit(t, p5 + 1, "\"projects\""@) == Some(p5 + 18));
    // ":" then " " then the projects map
    lemma_text_at_index(t, p5, oc, 18);
    lemma_text_at_index(t, p5, oc, 19);
    assert(t[p5 + 18] == ':');
    assert(skip_ws(t, p5 + 18) == p5 + 18);
    assert(expect_char(t, p5 + 18, ':') == Some(p5 + 19));
    assert forall|m: int| p5 + 19 <= m < p6 implies is_ws(#[trigger] t[m]) by {
        lemma_text_at_index(t, p5, oc, m - p5);
    }
    lemma_parse_render_projects(t, p5 + 19, p6, o.projects@);
    assert(parse_projects(t, p5 + 19) == Some((projects_map(o.projects@), p7)));
    // "\n    " then "}"
    assert forall|m: int| p7 <= m < p7 + 5 implies is_ws(#[trigger] t[m]) by {
        lemma_text_at_index(t, p7, od, m - p7);
    }
    lemma_text_at_index(t, p7, od, 5);
    assert(t[p7 + 5] == '}');
    lemma_skip_ws_to(t, p7, p7 + 5);
    assert(expect_char(t, p7, '}') == Some(p7 + 6));
    assert(parse_org_obj(t, p1 + 1, o.name@) == Some((o@, p7 + 6)));
    assert(p7 + 6 == i + e.len());
}

/// Parsing one or more rendered organization entries, with whitespace before
/// the first and a closing brace at `q` behind the last, gives the
/// organizations map.
#[verifier::rlimit(100)]
proof fn lemma_parse_render_org_entries(
    t: Seq<char>,
    i: int,
    start: int,
    q: int,
    os: Seq<Organization>,
)
    requires
        0 <= i <= start,
        forall|m: int| i <= m < start ==> is_ws(#[trigger] t[m]),
        text_at(t, start, render_org_entries(os)),
        os.len() > 0,
        org_names_unique(os),
        forall|j: int| 0 <= j < os.len() ==> (#[trigger] os[j]).wf(),
        blobs_ok(os),
        start + render_org_entries(os).len() <= q < t.len(),
        forall|m: int| start + render_org_entries(os).len() <= m < q ==> is_ws(#[trigger] t[m]),
        t[q] == '}',
    ensures
        parse_org_entries(t, i) == Some((orgs_map(os), q + 1)),
    decreases os.len(),
{
    let o0 = os[0];
    let e0 = render_org_entry(o0);
    let end = start + render_org_entries(os).len();
    assert(forall|j: int|
        0 <= j < o0.projects@.len() ==> b64_ok((#[trigger] o0.projects@[j]).name@));
    if os.len() == 1 {
        assert(render_org_entries(os) == e0);
        lemma_parse_render_org_entry(t, start, o0);
        lemma_parse_render_string_ws(t, i, start, o0.name@);
        let p1 = start + quoted(o0.name@).len();
        assert(parse_json_string(t, i) == Some((o0.name@, p1)));
        assert(parse_org_obj(t, p1 + 1, o0.name@) == Some((o0@, end)));
        lemma_skip_ws_to(t, end, q);
        assert(skip_ws(t, end) == q);
        assert(parse_org_entries(t, i) == Some((map![o0.name@ => o0@], q + 1)));
        assert(orgs_map(os) =~= map![o0.name@ => o0@]) by {
            reveal_with_fuel(orgs_map, 2);
            assert(os.drop_last() =~= Seq::<Organization>::empty());
        }
    } else {
        reveal_strlit(",\n    ");
        let sep = ",\n    "@;
        assert(sep.len() == 6);
        let rest = render_org_entries(os.drop_first());
        assert(render_org_entries(os) == e0 + sep + rest);
        assert(e0 + sep + rest =~= e0 + (sep + rest));
        lemma_text_at_split(t, start, e0, sep + rest);
        let pe = start + e0.len();
        lemma_text_at_split(t, pe, sep, rest);
        lemma_parse_render_org_entry(t, start, o0);
        lemma_parse_render_string_ws(t, i, start, o0.name@);
        let p1 = start + quoted(o0.name@).len();
        assert(parse_json_string(t, i) == Some((o0.name@, p1)));
        assert(parse_org_obj(t, p1 + 1, o0.name@) == Some((o0@, pe)));
        lemma_text_at_index(t, pe, sep, 0);
        assert(t[pe] == ',');
        assert(skip_ws(t, pe) == pe);
        assert forall|m: int| pe + 1 <= m < pe + 6 implies is_ws(#[trigger] t[m]) by {
            lemma_text_at_index(t, pe, sep, m - pe);
        }
        assert(org_names_unique(os.drop_first())) by {
            assert forall|a: int, b: int|
                0 <= a < b < os.drop_first().len() implies os.drop_first()[a].name@
                != os.drop_first()[b].name@ by {
                assert(os.drop_first()[a] == os[a + 1]);
                assert(os.drop_first()[b] == os[b + 1]);
            }
        }
        assert forall|j: int|
            0 <= j < os.drop_first().len() implies (#[trigger] os.drop_first()[j]).wf() by {
            assert(os.drop_first()[j] == os[j + 1]);
        }
        assert(blobs_ok(os.drop_first())) by {
            assert forall|a: int, j: int|
                0 <= a < os.drop_first().len() && 0 <= j
                    < os.drop_first()[a].projects@.len() implies b64_ok(
                (#[trigger] os.drop_first()[a].projects@[j]).name@,
            ) by {
                assert(os.drop_first()[a] == os[a + 1]);
                assert(b64_ok(os[a + 1].projects@[j].name@));
            }
        }
        lemma_parse_render_org_entries(t, pe + 1, pe + 6, q, os.drop_first());
        assert(parse_org_entries(t, pe + 1) == Some((orgs_map(os.drop_first()), q + 1)));
        crate::config::lemma_orgs_map_contains(os.drop_first(), o0.name@);
        assert(!orgs_map(os.drop_first()).contains_key(o0.name@)) by {
            if exists|m: int|
                0 <= m < os.drop_first().len() && os.drop_first()[m].name@ == o0.name@ {
                let m = choose|m: int|
                    0 <= m < os.drop_first().len() && os.drop_first()[m].name@ == o0.name@;
                assert(os[m + 1].name@ == os[0].name@);
            }
        }
        assert forall|m: int|
            0 <= m < os.drop_first().len() implies (#[trigger] os.drop_first()[m]).name@
            != os[0].name@ by {
            assert(os.drop_first()[m] == os[m + 1]);
        }
        lemma_orgs_map_cons(os[0], os.drop_first());
        assert(seq![os[0]] + os.drop_first() =~= os);
        assert(parse_org_entries(t, i) == Some((orgs_map(os), q + 1)));
    }
}

/// Parsing at a whitespace run followed by the rendered organizations map
/// gives the map back.
#[verifier::rlimit(100)]
proof fn lemma_parse_render_orgs(t: Seq<char>, i: int, start: int, os: Seq<Organization>)
    requires
        0 <= i <= start,
        forall|m: int| i <= m < start ==> is_ws(#[trigger] t[m]),
        text_at(t, start, render_orgs(os)),
        org_names_unique(os),
        forall|j: int| 0 <= j < os.len() ==> (#[trigger] os[j]).wf(),
        blobs_ok(os),
        start + render_orgs(os).len() < t.len(),
    ensures
        parse_orgs(t, i) == Some((orgs_map(os), start + render_orgs(os).len())),
{
    if os.len() == 0 {
        reveal_strlit("{}");
        assert(render_orgs(os) == "{}"@);
        assert("{}"@.len() == 2);
        lemma_text_at_index(t, start, "{}"@, 0);
        lemma_text_at_index(t, start, "{}"@, 1);
        assert(t[start] == '{');
        assert(t[start + 1] == '}');
        lemma_skip_ws_to(t, i, start);
        assert(expect_char(t, i, '{') == Some(start + 1));
        assert(skip_ws(t, start + 1) == start + 1);
        assert(parse_orgs(t, i) == Some((Map::<Seq<char>, OrgView>::empty(), start + 2)));
        assert(orgs_map(os) =~= Map::<Seq<char>, OrgView>::empty());
    } else {
        reveal_strlit("{\n    ");
        reveal_strlit("\n  }");
        let oo = "{\n    "@;
        let ocl = "\n  }"@;
        assert(oo.len() == 6);
        assert(ocl.len() == 4);
        let entries = render_org_entries(os);
        assert(render_orgs(os) == oo + entries + ocl);
        assert(oo + entries + ocl =~= oo + (entries + ocl));
        lemma_text_at_split(t, start, oo, entries + ocl);
        let s1 = start + 6;
        lemma_text_at_split(t, s1, entries, ocl);
        let s2 = s1 + entries.len();
        lemma_text_at_index(t, start, oo, 0);
        assert(t[start] == '{');
        lemma_skip_ws_to(t, i, start);
        assert(expect_char(t, i, '{') == Some(start + 1));
        assert forall|m: int| start + 1 <= m < s1 implies is_ws(#[trigger] t[m]) by {
            lemma_text_at_index(t, start, oo, m - start);
        }
        assert(entries[0] == '"') by {
            if os.len() == 1 {
            } else {
                assert(entries == render_org_entry(os[0]) + ",\n    "@ + render_org_entries(
                    os.drop_first(),
                ));
            }
            assert(render_org_entry(os[0])[0] == quoted(os[0].name@)[0]);
            assert(quoted(os[0].name@)[0] == '"');
        }
        lemma_text_at_index(t, s1, entries, 0);
        assert(t[s1] == '"');
        lemma_skip_ws_to(t, start + 1, s1);
        assert(skip_ws(t, start + 1) == s1);
        assert forall|m: int| s2 <= m < s2 + 3 implies is_ws(#[trigger] t[m]) by {
            lemma_text_at_index(t, s2, ocl, m - s2);
        }
        lemma_text_at_index(t, s2, ocl, 3);
        assert(t[s2 + 3] == '}');
        lemma_parse_render_org_entries(t, start + 1, s1, s2 + 3, os);
        assert(parse_org_entries(t, start + 1) == Some((orgs_map(os), s2 + 4)));
        assert(s2 + 4 == start + render_orgs(os).len());
    }
}

/// Save/load round trip: parsing a rendered well-formed document gives back
/// exactly its organizations map, including the encrypted blobs, with no
/// re-encryption on reload.
#[verifier::rlimit(100)]
pub proof fn lemma_parse_render_config(os: Seq<Organization>)
    requires
        org_names_unique(os),
        forall|j: int| 0 <= j < os.len() ==> (#[trigger] os[j]).wf(),
        blobs_ok(os),
    ensures
        parse_config_spec(render_config_spec(os)) == Some(orgs_map(os)),
{
    reveal_strlit("{\n  \"organizations\": ");
    reveal_strlit("\n}");
    reveal_strlit("\"organizations\"");
    let hd = "{\n  \"organizations\": "@;
    let tl = "\n}"@;
    assert(hd.len() == 21);
    assert(tl.len() == 2);
    let ro = render_orgs(os);
    let t = render_config_spec(os);
    assert(t == hd + ro + tl);
    assert(hd + ro + tl =~= hd + (ro + tl));
    assert(text_at(t, 0, hd + (ro + tl))) by {
        assert(t.subrange(0, t.len() as int) =~= t);
    }
    lemma_text_at_split(t, 0, hd, ro + tl);
    lemma_text_at_split(t, 21, ro, tl);
    let e0: int = 21 + ro.len() as int;
    lemma_text_at_index(t, 0, hd, 0);
    assert(t[0] == '{');
    assert(skip_ws(t, 0) == 0);
    assert(expect_char(t, 0, '{') == Some(1int));
    assert forall|m: int| 1 <= m < 4 implies is_ws(#[trigger] t[m]) by {
        lemma_text_at_index(t, 0, hd, m);
    }
    lemma_text_at_index(t, 0, hd, 4);
    assert(t[4] == '"');
    lemma_skip_ws_to(t, 1, 4);
    assert(t.subrange(4, 19) =~= "\"organizations\""@) by {
        assert forall|k: int| 0 <= k < 15 implies t.subrange(4, 19)[k] == "\"organizations\""@[k]
        by {
            lemma_text_at_index(t, 0, hd, 4 + k);
            assert(t.subrange(4, 19)[k] == t[4 + k]);
        }
    }
    assert(expect_lit(t, 1, "\"organizations\""@) == Some(19int));
    lemma_text_at_index(t, 0, hd, 19);
    lemma_text_at_index(t, 0, hd, 20);
    assert(t[19] == ':');
    assert(skip_ws(t, 19) == 19);
    assert(expect_char(t, 19, ':') == Some(20int));
    assert forall|m: int| 20 <= m < 21 implies is_ws(#[trigger] t[m]) by {
        lemma_text_at_index(t, 0, hd, m);
    }
    lemma_parse_render_orgs(t, 20, 21, os);
    assert(parse_orgs(t, 20) == Some((orgs_map(os), e0)));
    assert forall|m: int| e0 <= m < e0 + 1 implies is_ws(#[trigger] t[m]) by {
        lemma_text_at_index(t, e0, tl, m - e0);
    }
    lemma_text_at_index(t, e0, tl, 1);
    assert(t[e0 + 1] == '}');
    lemma_skip_ws_to(t, e0, e0 + 1);
    assert(expect_char(t, e0, '}') == Some(e0 + 2));
    assert(e0 + 2 == t.len());
    assert(skip_ws(t, e0 + 2) == t.len());
    assert(parse_config_spec(t) == Some(orgs_map(os)));
}

} // verus!
