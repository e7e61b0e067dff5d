//! The persisted registry record: a JSON object holding the active-key name
//! and the map of keys, written and read as character sequences.
//!
//! The encoder emits one canonical form: fields in a fixed order, no
//! whitespace, strings with `"` and `\` escaped and control characters
//! written as `\u00XX`. The decoder reads exactly that canonical form back;
//! decoding inverts encoding.

use vstd::prelude::*;
use vstd::string::StrSliceExecFns;
use vstd::string::StringExecFns;

use crate::store::{KeyView, StorageView};

verus! {

/// The lowercase hexadecimal digit for `d`.
pub open spec fn hex_char(d: nat) -> char {
    if d == 0 {
        '0'
    } else if d == 1 {
        '1'
    } else if d == 2 {
        '2'
    } else if d == 3 {
        '3'
    } else if d == 4 {
        '4'
    } else if d == 5 {
        '5'
    } else if d == 6 {
        '6'
    } else if d == 7 {
        '7'
    } else if d == 8 {
        '8'
    } else if d == 9 {
        '9'
    } else if d == 10 {
        'a'
    } else if d == 11 {
        'b'
    } else if d == 12 {
        'c'
    } else if d == 13 {
        'd'
    } else if d == 14 {
        'e'
    } else {
        'f'
    }
}

/// How one character appears inside a JSON string.
pub open spec fn esc_char(c: char) -> Seq<char> {
    if c == '"' {
        seq!['\\', '"']
    } else if c == '\\' {
        seq!['\\', '\\']
    } else if (c as u32) < 32 {
        seq!['\\', 'u', '0', '0', hex_char(((c as u32) / 16) as nat), hex_char(
            ((c as u32) % 16) as nat,
        )]
    } else {
        seq![c]
    }
}

/// The body of a JSON string holding the characters of `s`.
pub open spec fn esc(s: Seq<char>) -> Seq<char>
    decreases s.len(),
{
    if s.len() == 0 {
        Seq::<char>::empty()
    } else {
        esc_char(s[0]) + esc(s.drop_first())
    }
}

/// A JSON string holding the characters of `s`.
pub open spec fn str_json(s: Seq<char>) -> Seq<char> {
    seq!['"'] + esc(s) + seq!['"']
}

/// A JSON string or `null`.
pub open spec fn opt_str_json(o: Option<Seq<char>>) -> Seq<char> {
    match o {
        None => "null"@,
        Some(s) => str_json(s),
    }
}

/// The JSON object for one key.
pub open spec fn key_json(k: KeyView) -> Seq<char> {
    "{\"originalPath\":"@ + opt_str_json(k.original_path) + ",\"privateKeyPath\":"@ + opt_str_json(
        k.private_key_path,
    ) + ",\"publicKeyPath\":"@ + opt_str_json(k.public_key_path) + ",\"name\":"@ + str_json(k.name)
        + "}"@
}

/// One member of the key map: the name, a colon, the key object.
pub open spec fn entry_json(k: KeyView) -> Seq<char> {
    str_json(k.name) + ":"@ + key_json(k)
}

/// The members after the first, each preceded by a comma.
pub open spec fn rest_json(s: Seq<KeyView>) -> Seq<char>
    decreases s.len(),
{
    if s.len() == 0 {
        Seq::<char>::empty()
    } else {
        ","@ + entry_json(s[0]) + rest_json(s.drop_first())
    }
}

/// The members of the key map, comma-separated.
pub open spec fn entries_json(s: Seq<KeyView>) -> Seq<char> {
    if s.len() == 0 {
        Seq::<char>::empty()
    } else {
        entry_json(s[0]) + rest_json(s.drop_first())
    }
}

/// The persisted record for a registry: its active-key name and its keys.
/// The transient pending-deletion buffer and the file name are not part of
/// the record.
pub open spec fn record_json(v: StorageView) -> Seq<char> {
    "{\"activeKeyName\":"@ + opt_str_json(v.active_key_name) + ",\"keysByName\":{"@ + entries_json(
        v.keys,
    ) + "}}"@
}

/// Escaping one more character extends the escaped body at its end.
proof fn lemma_esc_push(t: Seq<char>, c: char)
    ensures
        esc(t.push(c)) == esc(t) + esc_char(c),
    decreases t.len(),
{
    if t.len() == 0 {
        assert(t.push(c)[0] == c);
        assert(t.push(c).drop_first() =~= Seq::<char>::empty());
        assert(esc(Seq::<char>::empty()) == Seq::<char>::empty());
        assert(esc(t.push(c)) =~= esc(t) + esc_char(c));
    } else {
        assert(t.push(c)[0] == t[0]);
        assert(t.push(c).drop_first() =~= t.drop_first().push(c));
        lemma_esc_push(t.drop_first(), c);
        assert(esc(t.push(c)) =~= esc(t) + esc_char(c));
    }
}

/// Appending one more key extends the comma-separated members at their end.
proof fn lemma_rest_push(t: Seq<KeyView>, k: KeyView)
    ensures
        rest_json(t.push(k)) == rest_json(t) + ","@ + entry_json(k),
    decreases t.len(),
{
    if t.len() == 0 {
        assert(t.push(k)[0] == k);
        assert(t.push(k).drop_first() =~= Seq::<KeyView>::empty());
        assert(rest_json(Seq::<KeyView>::empty()) == Seq::<char>::empty());
        assert(rest_json(t.push(k)) =~= rest_json(t) + ","@ + entry_json(k));
    } else {
        assert(t.push(k)[0] == t[0]);
        assert(t.push(k).drop_first() =~= t.drop_first().push(k));
        lemma_rest_push(t.drop_first(), k);
        assert(rest_json(t.push(k)) =~= rest_json(t) + ","@ + entry_json(k));
    }
}

proof fn lemma_entries_push(t: Seq<KeyView>, k: KeyView)
    ensures
        t.len() == 0 ==> entries_json(t.push(k)) == entry_json(k),
        t.len() > 0 ==> entries_json(t.push(k)) == entries_json(t) + ","@ + entry_json(k),
{
    if t.len() == 0 {
        assert(t.push(k)[0] == k);
        assert(t.push(k).drop_first() =~= Seq::<KeyView>::empty());
        assert(rest_json(Seq::<KeyView>::empty()) == Seq::<char>::empty());
        assert(entries_json(t.push(k)) =~= entry_json(k));
    } else {
        assert(t.push(k)[0] == t[0]);
        assert(t.push(k).drop_first() =~= t.drop_first().push(k));
        lemma_rest_push(t.drop_first(), k);
        assert(entries_json(t.push(k)) =~= entries_json(t) + ","@ + entry_json(k));
    }
}

/// The value of a lowercase hexadecimal digit, or nothing.
pub open spec fn hex_val(c: char) -> Option<nat> {
    if c == '0' {
        Some(0 as nat)
    } else if c == '1' {
        Some(1 as nat)
    } else if c == '2' {
        Some(2 as nat)
    } else if c == '3' {
        Some(3 as nat)
    } else if c == '4' {
        Some(4 as nat)
    } else if c == '5' {
        Some(5 as nat)
    } else if c == '6' {
        Some(6 as nat)
    } else if c == '7' {
        Some(7 as nat)
    } else if c == '8' {
        Some(8 as nat)
    } else if c == '9' {
        Some(9 as nat)
    } else if c == 'a' {
        Some(10 as nat)
    } else if c == 'b' {
        Some(11 as nat)
    } else if c == 'c' {
        Some(12 as nat)
    } else if c == 'd' {
        Some(13 as nat)
    } else if c == 'e' {
        Some(14 as nat)
    } else if c == 'f' {
        Some(15 as nat)
    } else {
        None
    }
}

/// Consumes the exact characters of `lit` from the front of `s`.
pub open spec fn p_lit(s: Seq<char>, lit: Seq<char>) -> Option<Seq<char>> {
    if s.len() >= lit.len() && s.take(lit.len() as int) == lit {
        Some(s.skip(lit.len() as int))
    } else {
        None
    }
}

/// Reads a JSON string body up to its closing quote: the decoded characters
/// and what follows the quote. Only the canonical escapes are read back:
/// `\"`, `\\`, and `\u00XX` for a code under 32; an unescaped control
/// character, a bare `\`, or a missing quote fail.
pub open spec fn p_str_body(s: Seq<char>) -> Option<(Seq<char>, Seq<char>)>
    decreases s.len(),
{
    if s.len() == 0 {
        None
    } else if s[0] == '"' {
        Some((Seq::<char>::empty(), s.skip(1)))
    } else if s[0] == '\\' {
        if s.len() >= 2 && s[1] == '"' {
            match p_str_body(s.skip(2)) {
                Some((t, r)) => Some((seq!['"'] + t, r)),
                None => None,
            }
        } else if s.len() >= 2 && s[1] == '\\' {
            match p_str_body(s.skip(2)) {
                Some((t, r)) => Some((seq!['\\'] + t, r)),
                None => None,
            }
        } else if s.len() >= 6 && s[1] == 'u' && s[2] == '0' && s[3] == '0' {
            match (hex_val(s[4]), hex_val(s[5])) {
                (Some(h), Some(l)) => {
                    if h * 16 + l < 32 {
                        match p_str_body(s.skip(6)) {
                            Some((t, r)) => Some((seq![(((h * 16 + l) as u32) as char)] + t, r)),
                            None => None,
                        }
                    } else {
                        None
                    }
                },
                _ => None,
            }
        } else {
            None
        }
    } else if (s[0] as u32) < 32 {
        None
    } else {
        match p_str_body(s.skip(1)) {
            Some((t, r)) => Some((seq![s[0]] + t, r)),
            None => None,
        }
    }
}

/// Reads a quoted JSON string.
pub open spec fn p_string(s: Seq<char>) -> Option<(Seq<char>, Seq<char>)> {
    if s.len() > 0 && s[0] == '"' {
        p_str_body(s.skip(1))
    } else {
        None
    }
}

/// Reads a quoted JSON string or the literal `null`.
pub open spec fn p_opt_string(s: Seq<char>) -> Option<(Option<Seq<char>>, Seq<char>)> {
    if s.len() > 0 && s[0] == '"' {
        match p_str_body(s.skip(1)) {
            Some((t, r)) => Some((Some(t), r)),
            None => None,
        }
    } else {
        match p_lit(s, "null"@) {
            Some(r) => Some((None, r)),
            None => None,
        }
    }
}

/// Reads one key object.
pub open spec fn p_key(s: Seq<char>) -> Option<(KeyView, Seq<char>)> {
    match p_lit(s, "{\"originalPath\":"@) {
        Some(r0) => match p_opt_string(r0) {
            Some((op, r1)) => match p_lit(r1, ",\"privateKeyPath\":"@) {
                Some(r2) => match p_opt_string(r2) {
                    Some((pp, r3)) => match p_lit(r3, ",\"publicKeyPath\":"@) {
                        Some(r4) => match p_opt_string(r4) {
                            Some((qp, r5)) => match p_lit(r5, ",\"name\":"@) {
                                Some(r6) => match p_string(r6) {
                                    Some((nm, r7)) => match p_lit(r7, "}"@) {
                                        Some(r8) => Some(
                                            (
                                                KeyView {
                                                    original_path: op,
                                                    private_key_path: pp,
                                                    public_key_path: qp,
                                                    name: nm,
                                                },
                                                r8,
                                            ),
                                        ),
                                        None => None,
                                    },
                                    None => None,
                                },
                                None => None,
                            },
                            None => None,
                        },
                        None => None,
                    },
                    None => None,
                },
                None => None,
            },
            None => None,
        },
        None => None,
    }
}

/// Reads one member of the key map; the member name must agree with the
/// name inside the key object.
pub open spec fn p_entry(s: Seq<char>) -> Option<(KeyView, Seq<char>)> {
    match p_string(s) {
        Some((n, r1)) => match p_lit(r1, ":"@) {
            Some(r2) => match p_key(r2) {
                Some((k, r3)) => if k.name == n {
                    Some((k, r3))
                } else {
                    None
                },
                None => None,
            },
            None => None,
        },
        None => None,
    }
}

/// Reads the members after the first, each behind a comma, stopping before
/// anything that is not a comma.
pub open spec fn p_entries_rest(s: Seq<char>) -> Option<(Seq<KeyView>, Seq<char>)>
    decreases s.len(),
{
    if s.len() > 0 && s[0] == ',' {
        match p_entry(s.skip(1)) {
            Some((k, r)) => {
                if r.len() < s.len() {
                    match p_entries_rest(r) {
                        Some((more, r2)) => Some((seq![k] + more, r2)),
                        None => None,
                    }
                } else {
                    None
                }
            },
            None => None,
        }
    } else {
        Some((Seq::<KeyView>::empty(), s))
    }
}

/// Reads the comma-separated members of the key map, stopping before the
/// closing brace.
pub open spec fn p_entries(s: Seq<char>) -> Option<(Seq<KeyView>, Seq<char>)> {
    if s.len() == 0 {
        None
    } else if s[0] == '}' {
        Some((Seq::<KeyView>::empty(), s))
    } else {
        match p_entry(s) {
            Some((k, r)) => {
                if r.len() < s.len() {
                    match p_entries_rest(r) {
                        Some((more, r2)) => Some((seq![k] + more, r2)),
                        None => None,
                    }
                } else {
                    None
                }
            },
            None => None,
        }
    }
}

/// The registry a canonical record decodes to: nothing is pending, the file
/// name is the default, and the active name and keys are as read.
pub open spec fn spec_decode(s: Seq<char>) -> Option<StorageView> {
    match p_lit(s, "{\"activeKeyName\":"@) {
        Some(r0) => match p_opt_string(r0) {
            Some((a, r1)) => match p_lit(r1, ",\"keysByName\":{"@) {
                Some(r2) => match p_entries(r2) {
                    Some((ks, r3)) => match p_lit(r3, "}}"@) {
                        Some(r4) => if r4.len() == 0 {
                            Some(
                                StorageView {
                                    file_name: crate::paths::DEFAULT_JSON_FILE@,
                                    marked_for_deletion: Seq::<KeyView>::empty(),
                                    active_key_name: a,
                                    keys: ks,
                                },
                            )
                        } else {
                            None
                        },
                        None => None,
                    },
                    None => None,
                },
                None => None,
            },
            None => None,
        },
        None => None,
    }
}

/// What survives a save and a reload: the active name and the keys; the
/// pending-deletion buffer is empty on load and the file name the default.
pub open spec fn persisted(v: StorageView) -> StorageView {
    StorageView {
        file_name: crate::paths::DEFAULT_JSON_FILE@,
        marked_for_deletion: Seq::<KeyView>::empty(),
        active_key_name: v.active_key_name,
        keys: v.keys,
    }
}

proof fn lemma_p_lit(lit: Seq<char>, rest: Seq<char>)
    ensures
        p_lit(lit + rest, lit) == Some(rest),
{
    let s = lit + rest;
    assert(s.take(lit.len() as int) =~= lit);
    assert(s.skip(lit.len() as int) =~= rest);
}

proof fn lemma_p_str_body(content: Seq<char>, rest: Seq<char>)
    ensures
        p_str_body(esc(content) + seq!['"'] + rest) == Some((content, rest)),
    decreases content.len(),
{
    let s = esc(content) + seq!['"'] + rest;
    if content.len() == 0 {
        assert(esc(content) == Seq::<char>::empty());
        assert(s[0] == '"');
        assert(s.skip(1) =~= rest);
        assert(content =~= Seq::<char>::empty());
    } else {
        let c = content[0];
        let t = content.drop_first();
        assert(esc(content) == esc_char(c) + esc(t));
        lemma_p_str_body(t, rest);
        let s2 = esc(t) + seq!['"'] + rest;
        if c == '"' {
            assert(s[0] == '\\' && s[1] == '"' && s.len() >= 2);
            assert(s.skip(2) =~= s2);
            assert(seq!['"'] + t =~= content);
        } else if c == '\\' {
            assert(s[0] == '\\' && s[1] == '\\' && s.len() >= 2);
            assert(s.skip(2) =~= s2);
            assert(seq!['\\'] + t =~= content);
        } else if (c as u32) < 32 {
            let u = c as u32;
            let h = (u / 16) as nat;
            let l = (u % 16) as nat;
            assert(esc_char(c) == seq!['\\', 'u', '0', '0', hex_char(h), hex_char(l)]);
            assert(s.len() >= 6);
            assert(s[0] == '\\' && s[1] == 'u' && s[2] == '0' && s[3] == '0');
            assert(s[4] == hex_char(h) && s[5] == hex_char(l));
            assert(hex_val(hex_char(h)) == Some(h));
            assert(hex_val(hex_char(l)) == Some(l));
            vstd::arithmetic::div_mod::lemma_fundamental_div_mod(u as int, 16);
            assert(h * 16 + l == u);
            vstd::utf8::char_u32_cast(c, u);
            assert(((h * 16 + l) as u32) == u);
            assert(((u as u32) as char) == c);
            assert(s.skip(6) =~= s2);
            assert(seq![c] + t =~= content);
        } else {
            assert(s[0] == c);
            assert(s[0] != '"' && s[0] != '\\' && !((s[0] as u32) < 32));
            assert(s.skip(1) =~= s2);
            assert(seq![c] + t =~= content);
        }
    }
}

proof fn lemma_p_string(content: Seq<char>, rest: Seq<char>)
    ensures
        p_string(str_json(content) + rest) == Some((content, rest)),
{
    let s = str_json(content) + rest;
    assert(s[0] == '"');
    assert(s.skip(1) =~= esc(content) + seq!['"'] + rest);
    lemma_p_str_body(content, rest);
}

proof fn lemma_p_opt_string(o: Option<Seq<char>>, rest: Seq<char>)
    ensures
        p_opt_string(opt_str_json(o) + rest) == Some((o, rest)),
{
    let s = opt_str_json(o) + rest;
    match o {
        Some(content) => {
            assert(s[0] == '"');
            assert(s.skip(1) =~= esc(content) + seq!['"'] + rest);
            lemma_p_str_body(content, rest);
        },
        None => {
            reveal_strlit("null");
            assert(s[0] == 'n');
            lemma_p_lit("null"@, rest);
        },
    }
}

proof fn lemma_p_key(k: KeyView, rest: Seq<char>)
    ensures
        p_key(key_json(k) + rest) == Some((k, rest)),
{
    let s = key_json(k) + rest;
    let x7 = "}"@ + rest;
    let x6 = str_json(k.name) + x7;
    let x5 = ",\"name\":"@ + x6;
    let x4 = opt_str_json(k.public_key_path) + x5;
    let x3 = ",\"publicKeyPath\":"@ + x4;
    let x2 = opt_str_json(k.private_key_path) + x3;
    let x1 = ",\"privateKeyPath\":"@ + x2;
    let x0 = opt_str_json(k.original_path) + x1;
    assert(s =~= "{\"originalPath\":"@ + x0);
    lemma_p_lit("{\"originalPath\":"@, x0);
    lemma_p_opt_string(k.original_path, x1);
    lemma_p_lit(",\"privateKeyPath\":"@, x2);
    lemma_p_opt_string(k.private_key_path, x3);
    lemma_p_lit(",\"publicKeyPath\":"@, x4);
    lemma_p_opt_string(k.public_key_path, x5);
    lemma_p_lit(",\"name\":"@, x6);
    lemma_p_string(k.name, x7);
    lemma_p_lit("}"@, rest);
    assert(p_key(s) matches Some(pair) && pair.1 == rest && pair.0 =~= k);
}

proof fn lemma_p_entry(k: KeyView, rest: Seq<char>)
    ensures
        p_entry(entry_json(k) + rest) == Some((k, rest)),
{
    let s = entry_json(k) + rest;
    let x1 = ":"@ + (key_json(k) + rest);
    assert(s =~= str_json(k.name) + x1);
    lemma_p_string(k.name, x1);
    lemma_p_lit(":"@, key_json(k) + rest);
    lemma_p_key(k, rest);
}

/// An entry is never empty, so the member parser always advances.
proof fn lemma_entry_json_len(k: KeyView)
    ensures
        entry_json(k).len() >= 1,
        entry_json(k)[0] == '"',
{
}

#[verifier::rlimit(60)]
proof fn lemma_p_entries_rest(ks: Seq<KeyView>, rest: Seq<char>)
    requires
        rest.len() > 0,
        rest[0] == '}',
    ensures
        p_entries_rest(rest_json(ks) + rest) == Some((ks, rest)),
    decreases ks.len(),
{
    reveal_strlit(",");
    let s = rest_json(ks) + rest;
    if ks.len() == 0 {
        assert(s =~= rest);
        assert(s[0] == '}');
        assert(ks =~= Seq::<KeyView>::empty());
    } else {
        let x = rest_json(ks.drop_first()) + rest;
        assert(s =~= ","@ + (entry_json(ks[0]) + x));
        assert(s[0] == ',');
        assert(s.skip(1) =~= entry_json(ks[0]) + x);
        lemma_p_entry(ks[0], x);
        lemma_entry_json_len(ks[0]);
        assert(x.len() < s.len());
        lemma_p_entries_rest(ks.drop_first(), rest);
        assert(seq![ks[0]] + ks.drop_first() =~= ks);
    }
}

proof fn lemma_p_entries(ks: Seq<KeyView>, rest: Seq<char>)
    requires
        rest.len() > 0,
        rest[0] == '}',
    ensures
        p_entries(entries_json(ks) + rest) == Some((ks, rest)),
{
    let s = entries_json(ks) + rest;
    if ks.len() == 0 {
        assert(s =~= rest);
        assert(ks =~= Seq::<KeyView>::empty());
    } else {
        let x = rest_json(ks.drop_first()) + rest;
        assert(s =~= entry_json(ks[0]) + x);
        lemma_entry_json_len(ks[0]);
        assert(s[0] == '"');
        lemma_p_entry(ks[0], x);
        assert(x.len() < s.len());
        lemma_p_entries_rest(ks.drop_first(), rest);
        assert(seq![ks[0]] + ks.drop_first() =~= ks);
    }
}

/// Decoding inverts encoding: the canonical record of any registry reads
/// back as exactly the persisted part of that registry — the same keys in
/// the same order and the same active name, with nothing pending.
pub proof fn lemma_decode_encode(v: StorageView)
    ensures
        spec_decode(record_json(v)) == Some(persisted(v)),
{
    reveal_strlit("}}");
    let s = record_json(v);
    let x2 = entries_json(v.keys) + "}}"@;
    let x1 = ",\"keysByName\":{"@ + x2;
    let x0 = opt_str_json(v.active_key_name) + x1;
    assert(s =~= "{\"activeKeyName\":"@ + x0);
    lemma_p_lit("{\"activeKeyName\":"@, x0);
    lemma_p_opt_string(v.active_key_name, x1);
    lemma_p_lit(",\"keysByName\":{"@, x2);
    assert("}}"@.len() > 0 && "}}"@[0] == '}');
    lemma_p_entries(v.keys, "}}"@);
    assert("}}"@ =~= "}}"@ + Seq::<char>::empty());
    lemma_p_lit("}}"@, Seq::<char>::empty());
    assert(spec_decode(s) matches Some(w) && w =~= persisted(v));
}

/// The value of a lowercase hexadecimal digit, or nothing.
fn hex_val_of(c: char) -> (r: Option<u32>)
    ensures
        r is Some <==> hex_val(c) is Some,
        r matches Some(d) ==> hex_val(c) == Some(d as nat) && d < 16,
{
    if c == '0' {
        Some(0)
    } else if c == '1' {
        Some(1)
    } else if c == '2' {
        Some(2)
    } else if c == '3' {
        Some(3)
    } else if c == '4' {
        Some(4)
    } else if c == '5' {
        Some(5)
    } else if c == '6' {
        Some(6)
    } else if c == '7' {
        Some(7)
    } else if c == '8' {
        Some(8)
    } else if c == '9' {
        Some(9)
    } else if c == 'a' {
        Some(10)
    } else if c == 'b' {
        Some(11)
    } else if c == 'c' {
        Some(12)
    } else if c == 'd' {
        Some(13)
    } else if c == 'e' {
        Some(14)
    } else if c == 'f' {
        Some(15)
    } else {
        None
    }
}

/// Consumes the characters of `lit` at position `i`.
fn e_lit(v: &Vec<char>, i: usize, lit: &str) -> (r: Option<usize>)
    requires
        i <= v@.len(),
    ensures
        match r {
            Some(j) => j == i + lit@.len() && j <= v@.len() && p_lit(v@.skip(i as int), lit@)
                == Some(v@.skip(j as int)),
            None => p_lit(v@.skip(i as int), lit@) is None,
        },
{
    let n = lit.unicode_len();
    if v.len() - i < n {
        return None;
    }
    let mut k: usize = 0;
    while k < n
        invariant
            i + n <= v@.len(),
            v@.len() <= usize::MAX,
            n == lit@.len(),
            k <= n,
            forall|m: int| 0 <= m < k ==> v@[i + m] == lit@[m],
        decreases n - k,
    {
        if v[i + k] != lit.get_char(k) {
            proof {
                let s = v@.skip(i as int);
                assert(s[k as int] == v@[i + k]);
                if s.take(n as int) == lit@ {
                    assert(s.take(n as int)[k as int] == lit@[k as int]);
                }
            }
            return None;
        }
        k = k + 1;
    }
    proof {
        let s = v@.skip(i as int);
        assert(s.take(n as int) =~= lit@);
        assert(s.skip(n as int) =~= v@.skip((i + n) as int));
    }
    Some(i + n)
}

/// Reads a JSON string body at position `i`, after its opening quote.
fn e_str_body(v: &Vec<char>, i: usize) -> (r: Option<(Vec<char>, usize)>)
    requires
        i <= v@.len(),
    ensures
        match r {
            Some(p) => i < p.1 <= v@.len() && p_str_body(v@.skip(i as int)) == Some(
                (p.0@, v@.skip(p.1 as int)),
            ),
            None => p_str_body(v@.skip(i as int)) is None,
        },
    decreases v@.len() - i,
{
    let ghost s = v@.skip(i as int);
    if i == v.len() {
        return None;
    }
    let c0 = v[i];
    proof {
        assert(s[0] == v@[i as int]);
    }
    if c0 == '"' {
        let t: Vec<char> = Vec::new();
        proof {
            assert(s.skip(1) =~= v@.skip(i + 1));
            assert(t@ =~= Seq::<char>::empty());
        }
        return Some((t, i + 1));
    }
    if c0 == '\\' {
        if v.len() - i < 2 {
            return None;
        }
        let c1 = v[i + 1];
        proof {
            assert(s[1] == v@[i + 1]);
        }
        if c1 == '"' {
            proof {
                assert(s.skip(2) =~= v@.skip(i + 2));
            }
            match e_str_body(v, i + 2) {
                Some((mut t, j)) => {
                    let ghost t0 = t@;
                    t.insert(0, '"');
                    proof {
                        assert(t@ =~= seq!['"'] + t0);
                    }
                    Some((t, j))
                },
                None => None,
            }
        } else if c1 == '\\' {
            proof {
                assert(s.skip(2) =~= v@.skip(i + 2));
            }
            match e_str_body(v, i + 2) {
                Some((mut t, j)) => {
                    let ghost t0 = t@;
                    t.insert(0, '\\');
                    proof {
                        assert(t@ =~= seq!['\\'] + t0);
                    }
                    Some((t, j))
                },
                None => None,
            }
        } else if c1 == 'u' {
            if v.len() - i < 6 {
                return None;
            }
            proof {
                assert(s[2] == v@[i + 2]);
                assert(s[3] == v@[i + 3]);
                assert(s[4] == v@[i + 4]);
                assert(s[5] == v@[i + 5]);
            }
            if v[i + 2] != '0' || v[i + 3] != '0' {
                return None;
            }
            let h = match hex_val_of(v[i + 4]) {
                Some(h) => h,
                None => {
                    return None;
                },
            };
            let l = match hex_val_of(v[i + 5]) {
                Some(l) => l,
                None => {
                    return None;
                },
            };
            let u: u32 = h * 16 + l;
            if u >= 32 {
                return None;
            }
            let c = (u as u8) as char;
            proof {
                vstd::utf8::char_u32_cast(c, u);
                assert((u as char) == c);
                assert(s.skip(6) =~= v@.skip(i + 6));
            }
            match e_str_body(v, i + 6) {
                Some((mut t, j)) => {
                    let ghost t0 = t@;
                    t.insert(0, c);
                    proof {
                        assert(t@ =~= seq![c] + t0);
                    }
                    Some((t, j))
                },
                None => None,
            }
        } else {
            None
        }
    } else {
        let u0 = c0 as u32;
        if u0 < 32 {
            return None;
        }
        proof {
            assert(s.skip(1) =~= v@.skip(i + 1));
        }
        match e_str_body(v, i + 1) {
            Some((mut t, j)) => {
                let ghost t0 = t@;
                t.insert(0, c0);
                proof {
                    assert(t@ =~= seq![c0] + t0);
                }
                Some((t, j))
            },
            None => None,
        }
    }
}

/// Reads a quoted JSON string at position `i`.
fn e_string(v: &Vec<char>, i: usize) -> (r: Option<(Vec<char>, usize)>)
    requires
        i <= v@.len(),
    ensures
        match r {
            Some(p) => i < p.1 <= v@.len() && p_string(v@.skip(i as int)) == Some(
                (p.0@, v@.skip(p.1 as int)),
            ),
            None => p_string(v@.skip(i as int)) is None,
        },
{
    if i == v.len() {
        return None;
    }
    if v[i] != '"' {
        proof {
            assert(v@.skip(i as int)[0] == v@[i as int]);
        }
        return None;
    }
    proof {
        assert(v@.skip(i as int)[0] == v@[i as int]);
        assert(v@.skip(i as int).skip(1) =~= v@.skip(i + 1));
    }
    e_str_body(v, i + 1)
}

/// Reads a quoted JSON string or the literal `null` at position `i`.
fn e_opt_string(v: &Vec<char>, i: usize) -> (r: Option<(Option<String>, usize)>)
    requires
        i <= v@.len(),
    ensures
        match r {
            Some(p) => i <= p.1 <= v@.len() && p_opt_string(v@.skip(i as int)) == Some(
                (p.0.deep_view(), v@.skip(p.1 as int)),
            ),
            None => p_opt_string(v@.skip(i as int)) is None,
        },
{
    let ghost s = v@.skip(i as int);
    if i < v.len() && v[i] == '"' {
        proof {
            assert(s[0] == v@[i as int]);
            assert(s.skip(1) =~= v@.skip(i + 1));
        }
        match e_str_body(v, i + 1) {
            Some((t, j)) => {
                let st = crate::strutil::chars_to_string(&t);
                Some((Some(st), j))
            },
            None => None,
        }
    } else {
        proof {
            if i < v@.len() {
                assert(s[0] == v@[i as int]);
            }
        }
        match e_lit(v, i, "null") {
            Some(j) => Some((None, j)),
            None => None,
        }
    }
}

/// Reads one key object at position `i`.
fn e_key(v: &Vec<char>, i: usize) -> (r: Option<(crate::store::Key, usize)>)
    requires
        i <= v@.len(),
    ensures
        match r {
            Some(p) => i <= p.1 <= v@.len() && p_key(v@.skip(i as int)) == Some(
                (p.0@, v@.skip(p.1 as int)),
            ),
            None => p_key(v@.skip(i as int)) is None,
        },
{
    let r0 = match e_lit(v, i, "{\"originalPath\":") {
        Some(j) => j,
        None => {
            return None;
        },
    };
    let (op, r1) = match e_opt_string(v, r0) {
        Some(p) => p,
        None => {
            return None;
        },
    };
    let r2 = match e_lit(v, r1, ",\"privateKeyPath\":") {
        Some(j) => j,
        None => {
            return None;
        },
    };
    let (pp, r3) = match e_opt_string(v, r2) {
        Some(p) => p,
        None => {
            return None;
        },
    };
    let r4 = match e_lit(v, r3, ",\"publicKeyPath\":") {
        Some(j) => j,
        None => {
            return None;
        },
    };
    let (qp, r5) = match e_opt_string(v, r4) {
        Some(p) => p,
        None => {
            return None;
        },
    };
    let r6 = match e_lit(v, r5, ",\"name\":") {
        Some(j) => j,
        None => {
            return None;
        },
    };
    let (nm, r7) = match e_string(v, r6) {
        Some(p) => p,
        None => {
            return None;
        },
    };
    let r8 = match e_lit(v, r7, "}") {
        Some(j) => j,
        None => {
            return None;
        },
    };
    let k = crate::store::Key {
        original_path: op,
        private_key_path: pp,
        public_key_path: qp,
        name: crate::strutil::chars_to_string(&nm),
    };
    proof {
        let sk = p_key(v@.skip(i as int));
        assert(sk matches Some(p) && p.0 =~= k@ && p.1 == v@.skip(r8 as int));
    }
    Some((k, r8))
}

/// Reads one member of the key map at position `i`.
fn e_entry(v: &Vec<char>, i: usize) -> (r: Option<(crate::store::Key, usize)>)
    requires
        i <= v@.len(),
    ensures
        match r {
            Some(p) => i < p.1 <= v@.len() && p_entry(v@.skip(i as int)) == Some(
                (p.0@, v@.skip(p.1 as int)),
            ),
            None => p_entry(v@.skip(i as int)) is None,
        },
{
    let (nm, r1) = match e_string(v, i) {
        Some(p) => p,
        None => {
            return None;
        },
    };
    let r2 = match e_lit(v, r1, ":") {
        Some(j) => j,
        None => {
            return None;
        },
    };
    let (k, r3) = match e_key(v, r2) {
        Some(p) => p,
        None => {
            return None;
        },
    };
    let nstr = crate::strutil::chars_to_string(&nm);
    if crate::strutil::str_eq(k.name.as_str(), nstr.as_str()) {
        Some((k, r3))
    } else {
        None
    }
}

/// Reads the comma-separated members of the key map at position `i`,
/// stopping before the closing brace.
fn e_entries(v: &Vec<char>, i: usize) -> (r: Option<(Vec<crate::store::Key>, usize)>)
    requires
        i <= v@.len(),
    ensures
        match r {
            Some(p) => i <= p.1 <= v@.len() && p_entries(v@.skip(i as int)) == Some(
                (p.0.deep_view(), v@.skip(p.1 as int)),
            ),
            None => p_entries(v@.skip(i as int)) is None,
        },
{
    if i == v.len() {
        return None;
    }
    if v[i] == '}' {
        let acc: Vec<crate::store::Key> = Vec::new();
        proof {
            assert(v@.skip(i as int)[0] == v@[i as int]);
            assert(acc.deep_view() =~= Seq::<KeyView>::empty());
        }
        return Some((acc, i));
    }
    proof {
        assert(v@.skip(i as int)[0] == v@[i as int]);
    }
    let (k0, j0) = match e_entry(v, i) {
        Some(p) => p,
        None => {
            return None;
        },
    };
    let mut acc: Vec<crate::store::Key> = Vec::new();
    acc.push(k0);
    let mut cur: usize = j0;
    proof {
        assert(v@.skip(i as int).len() > v@.skip(j0 as int).len());
        assert(acc.deep_view() =~= seq![k0@]);
    }
    while cur < v.len() && v[cur] == ','
        invariant
            i <= cur <= v@.len(),
            match p_entries_rest(v@.skip(cur as int)) {
                Some((more, r2)) => p_entries(v@.skip(i as int)) == Some(
                    (acc.deep_view() + more, r2),
                ),
                None => p_entries(v@.skip(i as int)) is None,
            },
        decreases v@.len() - cur,
    {
        proof {
            assert(v@.skip(cur as int)[0] == v@[cur as int]);
            assert(v@.skip(cur as int).skip(1) =~= v@.skip(cur + 1));
        }
        let (k, j) = match e_entry(v, cur + 1) {
            Some(p) => p,
            None => {
                return None;
            },
        };
        let ghost oldacc = acc.deep_view();
        acc.push(k);
        proof {
            assert(v@.skip(cur as int).len() > v@.skip(j as int).len());
            assert(acc.deep_view() =~= oldacc + seq![k@]);
            match p_entries_rest(v@.skip(j as int)) {
                Some((more, r2)) => {
                    assert(oldacc + (seq![k@] + more) =~= acc.deep_view() + more);
                },
                None => {},
            }
        }
        cur = j;
    }
    proof {
        if cur < v@.len() {
            assert(v@.skip(cur as int)[0] == v@[cur as int]);
        }
        assert(p_entries_rest(v@.skip(cur as int)) == Some(
            (Seq::<KeyView>::empty(), v@.skip(cur as int)),
        ));
        assert(acc.deep_view() + Seq::<KeyView>::empty() =~= acc.deep_view());
    }
    Some((acc, cur))
}

/// Whether no two keys share a name.
fn keys_unique(keys: &Vec<crate::store::Key>) -> (r: bool)
    ensures
        r == (forall|p: int, q: int|
            0 <= p < q < keys.deep_view().len() ==> keys.deep_view()[p].name
                != keys.deep_view()[q].name),
{
    let n = keys.len();
    let mut q: usize = 0;
    while q < n
        invariant
            n == keys.deep_view().len(),
            n == keys@.len(),
            q <= n,
            forall|a: int, b: int|
                0 <= a < b < q ==> keys.deep_view()[a].name != keys.deep_view()[b].name,
        decreases n - q,
    {
        let mut p: usize = 0;
        while p < q
            invariant
                n == keys.deep_view().len(),
                n == keys@.len(),
                p <= q < n,
                forall|a: int| 0 <= a < p ==> keys.deep_view()[a].name != keys.deep_view()[
                    q as int
                ].name,
            decreases q - p,
        {
            if crate::strutil::str_eq(keys[p].name.as_str(), keys[q].name.as_str()) {
                proof {
                    assert(keys.deep_view()[p as int].name == keys.deep_view()[q as int].name);
                }
                return false;
            }
            p = p + 1;
        }
        q = q + 1;
    }
    true
}

/// Whether some key carries the name `a`.
fn keys_contain(keys: &Vec<crate::store::Key>, a: &str) -> (r: bool)
    ensures
        r == (exists|j: int| 0 <= j < keys.deep_view().len() && keys.deep_view()[j].name == a@),
{
    let n = keys.len();
    let mut j: usize = 0;
    while j < n
        invariant
            n == keys.deep_view().len(),
            n == keys@.len(),
            j <= n,
            forall|b: int| 0 <= b < j ==> keys.deep_view()[b].name != a@,
        decreases n - j,
    {
        if crate::strutil::str_eq(keys[j].name.as_str(), a) {
            proof {
                assert(keys.deep_view()[j as int].name == a@);
            }
            return true;
        }
        j = j + 1;
    }
    false
}

/// Reads a canonical persisted record back into a registry.
///
/// Besides the record's shape, the registry's own invariants are required
/// of the input: duplicate key names, or an active name that no key
/// carries, fail the decode.
pub fn decode_registry(v: &Vec<char>) -> (r: Option<crate::store::SshKeyStorage>)
    ensures
        match spec_decode(v@) {
            Some(sv) => {
                &&& (sv.wf() ==> (r matches Some(st) && st@ == sv))
                &&& (!sv.wf() ==> r is None)
            },
            None => r is None,
        },
{
    proof {
        assert(v@.skip(0) =~= v@);
    }
    let r0 = match e_lit(v, 0, "{\"activeKeyName\":") {
        Some(j) => j,
        None => {
            return None;
        },
    };
    let (active, r1) = match e_opt_string(v, r0) {
        Some(p) => p,
        None => {
            return None;
        },
    };
    let r2 = match e_lit(v, r1, ",\"keysByName\":{") {
        Some(j) => j,
        None => {
            return None;
        },
    };
    let (keys, r3) = match e_entries(v, r2) {
        Some(p) => p,
        None => {
            return None;
        },
    };
    let r4 = match e_lit(v, r3, "}}") {
        Some(j) => j,
        None => {
            return None;
        },
    };
    if r4 != v.len() {
        proof {
            assert(v@.skip(r4 as int).len() != 0);
        }
        return None;
    }
    proof {
        assert(v@.skip(r4 as int).len() == 0);
    }
    let ghost sv = spec_decode(v@)->Some_0;
    proof {
        assert(sv.keys == keys.deep_view());
        assert(sv.active_key_name == active.deep_view());
    }
    if !keys_unique(&keys) {
        proof {
            assert(!sv.names_unique());
        }
        return None;
    }
    match &active {
        Some(a) => {
            if !keys_contain(&keys, a.as_str()) {
                proof {
                    assert(!sv.wf());
                }
                return None;
            }
        },
        None => {},
    }
    proof {
        assert(sv.wf());
        assert((StorageView {
            file_name: crate::paths::DEFAULT_JSON_FILE@,
            marked_for_deletion: Seq::<KeyView>::empty(),
            active_key_name: active.deep_view(),
            keys: keys.deep_view(),
        }) =~= sv);
    }
    let st = crate::store::SshKeyStorage::from_parts(
        String::from_str(crate::paths::DEFAULT_JSON_FILE),
        active,
        keys,
    );
    proof {
        assert(st@ =~= sv);
    }
    Some(st)
}

/// A well-formed registry survives a save and a reload whole: its record
/// decodes, and what comes back has the same keys and active name and is
/// well-formed again, with nothing pending.
pub proof fn lemma_round_trip(v: StorageView)
    requires
        v.wf(),
    ensures
        spec_decode(record_json(v)) == Some(persisted(v)),
        persisted(v).wf(),
        persisted(v).keys == v.keys,
        persisted(v).active_key_name == v.active_key_name,
        persisted(v).marked_for_deletion == Seq::<KeyView>::empty(),
{
    lemma_decode_encode(v);
    let w = persisted(v);
    assert(w.names_unique());
    match w.active_key_name {
        Some(a) => {
            assert(v.has_name(a));
            let i = choose|i: int| 0 <= i < v.keys.len() && v.keys[i].name == a;
            assert(w.keys[i].name == a);
        },
        None => {},
    }
}

/// The lowercase hexadecimal digit for `d`.
fn hex_char_of(d: u32) -> (c: char)
    requires
        d < 16,
    ensures
        c == hex_char(d as nat),
{
    if d == 0 {
        '0'
    } else if d == 1 {
        '1'
    } else if d == 2 {
        '2'
    } else if d == 3 {
        '3'
    } else if d == 4 {
        '4'
    } else if d == 5 {
        '5'
    } else if d == 6 {
        '6'
    } else if d == 7 {
        '7'
    } else if d == 8 {
        '8'
    } else if d == 9 {
        '9'
    } else if d == 10 {
        'a'
    } else if d == 11 {
        'b'
    } else if d == 12 {
        'c'
    } else if d == 13 {
        'd'
    } else if d == 14 {
        'e'
    } else {
        'f'
    }
}

fn push_escaped_char(out: &mut Vec<char>, c: char)
    ensures
        final(out)@ == old(out)@ + esc_char(c),
{
    if c == '"' {
        out.push('\\');
        out.push('"');
    } else if c == '\\' {
        out.push('\\');
        out.push('\\');
    } else {
        let u = c as u32;
        if u < 32 {
            out.push('\\');
            out.push('u');
            out.push('0');
            out.push('0');
            out.push(hex_char_of(u / 16));
            out.push(hex_char_of(u % 16));
        } else {
            out.push(c);
        }
    }
    proof {
        assert(out@ =~= old(out)@ + esc_char(c));
    }
}

fn push_escaped(out: &mut Vec<char>, s: &str)
    ensures
        final(out)@ == old(out)@ + esc(s@),
{
    let n = s.unicode_len();
    let mut i: usize = 0;
    proof {
        assert(s@.take(0) =~= Seq::<char>::empty());
    }
    while i < n
        invariant
            n == s@.len(),
            i <= n,
            out@ == old(out)@ + esc(s@.take(i as int)),
        decreases n - i,
    {
        let c = s.get_char(i);
        push_escaped_char(out, c);
        proof {
            lemma_esc_push(s@.take(i as int), c);
            assert(s@.take(i as int).push(c) =~= s@.take(i + 1));
            assert(out@ =~= old(out)@ + esc(s@.take(i + 1)));
        }
        i = i + 1;
    }
    proof {
        assert(s@.take(n as int) =~= s@);
    }
}

fn push_string_json(out: &mut Vec<char>, s: &str)
    ensures
        final(out)@ == old(out)@ + str_json(s@),
{
    out.push('"');
    push_escaped(out, s);
    out.push('"');
    proof {
        assert(out@ =~= old(out)@ + str_json(s@));
    }
}

fn push_opt_string_json(out: &mut Vec<char>, o: &Option<String>)
    ensures
        final(out)@ == old(out)@ + opt_str_json(o.deep_view()),
{
    match o {
        None => {
            crate::strutil::push_chars(out, "null");
        },
        Some(s) => {
            push_string_json(out, s.as_str());
        },
    }
}

fn push_key_json(out: &mut Vec<char>, k: &crate::store::Key)
    ensures
        final(out)@ == old(out)@ + key_json(k@),
{
    crate::strutil::push_chars(out, "{\"originalPath\":");
    push_opt_string_json(out, &k.original_path);
    crate::strutil::push_chars(out, ",\"privateKeyPath\":");
    push_opt_string_json(out, &k.private_key_path);
    crate::strutil::push_chars(out, ",\"publicKeyPath\":");
    push_opt_string_json(out, &k.public_key_path);
    crate::strutil::push_chars(out, ",\"name\":");
    push_string_json(out, k.name.as_str());
    crate::strutil::push_chars(out, "}");
    proof {
        assert(out@ =~= old(out)@ + key_json(k@));
    }
}

fn push_entry_json(out: &mut Vec<char>, k: &crate::store::Key)
    ensures
        final(out)@ == old(out)@ + entry_json(k@),
{
    push_string_json(out, k.name.as_str());
    crate::strutil::push_chars(out, ":");
    push_key_json(out, k);
    proof {
        assert(out@ =~= old(out)@ + entry_json(k@));
    }
}

/// The canonical persisted record for `st`, as characters.
pub fn encode_registry(st: &crate::store::SshKeyStorage) -> (r: Vec<char>)
    ensures
        r@ == record_json(st@),
{
    let mut out: Vec<char> = Vec::new();
    crate::strutil::push_chars(&mut out, "{\"activeKeyName\":");
    push_opt_string_json(&mut out, st.active_name());
    crate::strutil::push_chars(&mut out, ",\"keysByName\":{");
    let ghost mid = out@;
    let keys = st.get_keys();
    let n = keys.len();
    let mut i: usize = 0;
    proof {
        assert(st@.keys.take(0) =~= Seq::<KeyView>::empty());
        assert(out@ =~= mid + entries_json(st@.keys.take(0)));
    }
    while i < n
        invariant
            n == st@.keys.len(),
            n == keys@.len(),
            keys.deep_view() == st@.keys,
            i <= n,
            out@ == mid + entries_json(st@.keys.take(i as int)),
        decreases n - i,
    {
        if i > 0 {
            crate::strutil::push_chars(&mut out, ",");
        }
        push_entry_json(&mut out, &keys[i]);
        proof {
            lemma_entries_push(st@.keys.take(i as int), st@.keys[i as int]);
            assert(st@.keys.take(i as int).push(st@.keys[i as int]) =~= st@.keys.take(i + 1));
            assert(out@ =~= mid + entries_json(st@.keys.take(i + 1)));
        }
        i = i + 1;
    }
    crate::strutil::push_chars(&mut out, "}}");
    proof {
        assert(st@.keys.take(n as int) =~= st@.keys);
        assert(out@ =~= record_json(st@));
    }
    out
}

} // verus!
