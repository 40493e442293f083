//! Authorisations as text: what is signed, and when what comes back is taken.

use vstd::prelude::*;
use vstd::string::*;

use crate::strings::{
    chars_of, find_last, read_isize, read_unsigned, slice_of, split, string_of, write_decimal,
    write_integer,
};
#[allow(unused_imports)]
use crate::strings::{
    char_rows, decimal, decimal_int, free_of, in_range, last_place, law_decimal_reads_back,
    lemma_decimal_int_free, lemma_last_place, lemma_last_place_in, lemma_pieces_begin,
    lemma_pieces_one, lemma_reads_are_natural, pieces, signed_read, unsigned_read,
};
use crate::uia::snapshot::Scope;

verus! {

/// The text of a scope, which is what gets signed.
pub open spec fn scope_text(s: Scope) -> Seq<char> {
    decimal_int(s.hwnd as int).push('.') + decimal(s.generation as nat).push('.') + decimal(
        s.exp as nat,
    )
}

/// Writes a scope as text.
pub fn scope_body(s: Scope) -> (r: String)
    ensures
        r@ == scope_text(s),
{
    let mut out = write_integer(s.hwnd as i64);
    out.push('.');
    out.append(write_decimal(s.generation).as_str());
    out.push('.');
    out.append(write_decimal(s.exp).as_str());
    assert(out@ =~= scope_text(s));
    out
}

/// The scope that three fields write.
pub open spec fn fields_read(rows: Seq<Seq<char>>) -> Option<Scope> {
    let hwnd = in_range(signed_read(rows[0]), isize::MIN as int, isize::MAX as int);
    let generation = in_range(unsigned_read(rows[1]), 0, u64::MAX as int);
    let exp = in_range(unsigned_read(rows[2]), 0, u64::MAX as int);
    if rows.len() == 3 && hwnd is Some && generation is Some && exp is Some {
        Some(
            Scope {
                hwnd: hwnd->0 as isize,
                generation: generation->0 as u64,
                exp: exp->0 as u64,
            },
        )
    } else {
        None
    }
}

/// The scope that an authorisation grants, or why it grants none. `signed`
/// says whether the text carries the signature that was made for it.
pub open spec fn scope_read(body: Seq<char>, signed: bool, now: u64) -> Result<Scope, Seq<char>> {
    if !signed {
        Err("scope signature does not match; discover again"@)
    } else {
        match fields_read(pieces(body, '.')) {
            None => Err("malformed scope"@),
            Some(s) => if now <= s.exp {
                Ok(s)
            } else {
                Err("scope expired; discover again"@)
            },
        }
    }
}

/// A result with the characters of its reason.
pub open spec fn reasoned(r: Result<Scope, String>) -> Result<Scope, Seq<char>> {
    match r {
        Ok(s) => Ok(s),
        Err(e) => Err(e@),
    }
}

/// Reads the scope that an authorisation grants: one that was signed, that has
/// its three fields, and that has not expired.
pub fn read_scope(body: &str, signed: bool, now: u64) -> (r: Result<Scope, String>)
    ensures
        reasoned(r) == scope_read(body@, signed, now),
{
    if !signed {
        return Err("scope signature does not match; discover again".to_string());
    }
    let rows = split(&chars_of(body), '.');
    let ghost all = char_rows(rows@);
    assert(all.len() == rows@.len());
    if rows.len() != 3 {
        return Err("malformed scope".to_string());
    }
    assert(all[0] == rows@[0]@ && all[1] == rows@[1]@ && all[2] == rows@[2]@);
    match (
        read_isize(&rows[0]),
        read_unsigned(&rows[1], u64::MAX),
        read_unsigned(&rows[2], u64::MAX),
    ) {
        (Some(hwnd), Some(generation), Some(exp)) => {
            let scope = Scope { hwnd, generation, exp };
            assert(fields_read(all) == Some(scope));
            if now <= exp {
                Ok(scope)
            } else {
                Err("scope expired; discover again".to_string())
            }
        },
        _ => Err("malformed scope".to_string()),
    }
}

/// A scope that was written and signed reads back as itself until it expires,
/// and is refused from then on.
pub proof fn law_scope_reads_back(s: Scope, now: u64)
    ensures
        now <= s.exp ==> scope_read(scope_text(s), true, now) == Ok::<Scope, Seq<char>>(s),
        now > s.exp ==> scope_read(scope_text(s), true, now) == Err::<Scope, Seq<char>>(
            "scope expired; discover again"@,
        ),
{
    let a = decimal_int(s.hwnd as int);
    let b = decimal(s.generation as nat);
    let c = decimal(s.exp as nat);
    lemma_decimal_int_free(s.hwnd as int, '.');
    lemma_decimal_int_free(s.generation as int, '.');
    lemma_decimal_int_free(s.exp as int, '.');
    lemma_pieces_one(a, '.');
    lemma_pieces_begin(a, b, '.');
    lemma_pieces_begin(a.push('.') + b, c, '.');
    assert((a.push('.') + b).push('.') + c =~= scope_text(s));
    assert(pieces(scope_text(s), '.') =~= seq![a, b, c]);
    law_decimal_reads_back(s.hwnd as int);
    law_decimal_reads_back(s.generation as int);
    law_decimal_reads_back(s.exp as int);
}

/// No scope is taken that was not signed, and none after its time.
pub proof fn law_only_signed_and_current_scopes(body: Seq<char>, signed: bool, now: u64)
    ensures
        scope_read(body, signed, now) is Ok ==> signed && now <= scope_read(
            body,
            signed,
            now,
        )->Ok_0.exp,
{
}

/// The keyed hash of a text: HMAC over its UTF-8 bytes, with SHA-256.
pub uninterp spec fn lease_tag(key: Seq<u8>, body: Seq<char>) -> Seq<u8>;

/// Calls `Hmac::<Sha256>` of the `hmac` crate on the bytes of a text and
/// finalizes it. Keys of every length are taken, and the hash follows from the
/// key and the text alone. That nobody finds it without the key is left unsaid.
#[verifier::external_body]
fn make_tag(key: &[u8], body: &str) -> (r: Vec<u8>)
    ensures
        r@ == lease_tag(key@, body@),
{
    let mut mac = <hmac::Hmac::<sha2::Sha256> as hmac::Mac>::new_from_slice(key).unwrap();
    hmac::Mac::update(&mut mac, body.as_bytes());
    hmac::Mac::finalize(mac).into_bytes().to_vec()
}

/// Calls `Mac::verify_slice` of the `hmac` crate on the bytes of a text: it
/// succeeds exactly where the tag is the whole keyed hash. Its comparison takes
/// the same time wherever the two differ.
#[verifier::external_body]
fn check_tag(key: &[u8], body: &str, tag: &Vec<u8>) -> (r: bool)
    ensures
        r == (tag@ == lease_tag(key@, body@)),
{
    let mut mac = <hmac::Hmac::<sha2::Sha256> as hmac::Mac>::new_from_slice(key).unwrap();
    hmac::Mac::update(&mut mac, body.as_bytes());
    hmac::Mac::verify_slice(mac, tag.as_slice()).is_ok()
}

/// The hexadecimal digit for a number below sixteen.
pub open spec fn hex_char(n: int) -> char {
    if n < 10 {
        ('0' as int + n) as char
    } else {
        ('a' as int + n - 10) as char
    }
}

/// Some bytes in hexadecimal, two digits each.
pub open spec fn hex_text(b: Seq<u8>) -> Seq<char> {
    Seq::new(
        2 * b.len(),
        |i: int|
            if i % 2 == 0 {
                hex_char(b[i / 2] as int / 16)
            } else {
                hex_char(b[i / 2] as int % 16)
            },
    )
}

fn hex_digit(n: u8) -> (r: char)
    requires
        n < 16,
    ensures
        r == hex_char(n as int),
{
    if n < 10 {
        (48 + n) as char
    } else {
        (87 + n) as char
    }
}

fn write_hex(b: &Vec<u8>) -> (r: String)
    ensures
        r@ == hex_text(b@),
{
    let mut out = String::new();
    for i in 0..b.len()
        invariant
            out@ == hex_text(b@.take(i as int)),
    {
        out.push(hex_digit(b[i] / 16));
        out.push(hex_digit(b[i] % 16));
        assert(out@ =~= hex_text(b@.take(i + 1)));
    }
    assert(b@.take(b@.len() as int) =~= b@);
    out
}

fn hex_value(c: char) -> (r: Option<u8>)
    ensures
        match r {
            Some(n) => n < 16 && hex_char(n as int) == c,
            None => forall|n: int| 0 <= n < 16 ==> hex_char(n) != c,
        },
{
    let code: u32 = c as u32;
    if 48 <= code && code < 58 {
        let n: u8 = (code - 48) as u8;
        assert(hex_char(n as int) == c);
        Some(n)
    } else if 97 <= code && code < 103 {
        let n: u8 = (code - 87) as u8;
        assert(hex_char(n as int) == c);
        Some(n)
    } else {
        None
    }
}

fn read_hex(v: &Vec<char>) -> (r: Option<Vec<u8>>)
    ensures
        match r {
            Some(b) => hex_text(b@) == v@,
            None => forall|b: Seq<u8>| #[trigger] hex_text(b) != v@,
        },
{
    let size: usize = v.len();
    if size % 2 != 0 {
        assert forall|b: Seq<u8>| #[trigger] hex_text(b) != v@ by {
            assert(hex_text(b).len() == 2 * b.len());
        }
        return None;
    }
    let mut out: Vec<u8> = Vec::new();
    for i in 0..size / 2
        invariant
            size == v@.len(),
            out@.len() == i,
            forall|j: int|
                0 <= j < i ==> {
                    &&& hex_char((#[trigger] out@[j]) as int / 16) == v@[2 * j]
                    &&& hex_char(out@[j] as int % 16) == v@[2 * j + 1]
                },
    {
        match (hex_value(v[2 * i]), hex_value(v[2 * i + 1])) {
            (Some(hi), Some(lo)) => {
                let b: u8 = hi * 16 + lo;
                assert(b as int / 16 == hi && b as int % 16 == lo);
                out.push(b);
            },
            _ => {
                assert forall|b: Seq<u8>| #[trigger] hex_text(b) != v@ by {
                    if hex_text(b) == v@ {
                        let k = i as int;
                        assert(hex_text(b)[2 * k] == hex_char(b[k] as int / 16));
                        assert(hex_text(b)[2 * k + 1] == hex_char(b[k] as int % 16));
                        assert(0 <= b[k] as int / 16 < 16 && 0 <= b[k] as int % 16 < 16);
                    }
                }
                return None;
            },
        }
    }
    assert forall|k: int| 0 <= k < v@.len() implies #[trigger] hex_text(out@)[k] == v@[k] by {
        let j = k / 2;
        assert(hex_char(out@[j] as int / 16) == v@[2 * j]);
        assert(hex_char(out@[j] as int % 16) == v@[2 * j + 1]);
    }
    assert(hex_text(out@) =~= v@);
    Some(out)
}

proof fn lemma_hex_differs(a: Seq<u8>, b: Seq<u8>)
    requires
        hex_text(a) == hex_text(b),
    ensures
        a == b,
{
    assert(hex_text(a).len() == 2 * a.len());
    assert(hex_text(b).len() == 2 * b.len());
    assert forall|i: int| 0 <= i < a.len() implies a[i] == b[i] by {
        assert(hex_text(a)[2 * i] == hex_char(a[i] as int / 16));
        assert(hex_text(b)[2 * i] == hex_char(b[i] as int / 16));
        assert(hex_text(a)[2 * i + 1] == hex_char(a[i] as int % 16));
        assert(hex_text(b)[2 * i + 1] == hex_char(b[i] as int % 16));
        lemma_hex_char(a[i] as int / 16, b[i] as int / 16);
        lemma_hex_char(a[i] as int % 16, b[i] as int % 16);
    }
    assert(a =~= b);
}

proof fn lemma_hex_char(m: int, n: int)
    requires
        0 <= m < 16,
        0 <= n < 16,
    ensures
        hex_char(m) == hex_char(n) ==> m == n,
        hex_char(m) != '.',
{
    assert(hex_char(m) as int == if m < 10 {
        48 + m
    } else {
        87 + m
    });
    assert(hex_char(n) as int == if n < 10 {
        48 + n
    } else {
        87 + n
    });
}

/// An authorisation: the text of a scope, and its keyed hash in hexadecimal.
pub open spec fn signed_text(key: Seq<u8>, s: Scope) -> Seq<char> {
    scope_text(s).push('.') + hex_text(lease_tag(key, scope_text(s)))
}

/// Writes and signs a scope.
pub fn sign_scope(s: Scope, key: &[u8]) -> (r: String)
    ensures
        r@ == signed_text(key@, s),
{
    let mut out = scope_body(s);
    let tag = make_tag(key, out.as_str());
    out.push('.');
    out.append(write_hex(&tag).as_str());
    assert(out@ =~= signed_text(key@, s));
    out
}

/// What an authorisation says: all before its last dot.
pub open spec fn lease_body(text: Seq<char>) -> Seq<char> {
    if last_place(text, '.') < 0 {
        text
    } else {
        text.take(last_place(text, '.'))
    }
}

/// Whether an authorisation ends in the keyed hash of what it says.
pub open spec fn is_signed(text: Seq<char>, key: Seq<u8>) -> bool {
    &&& last_place(text, '.') >= 0
    &&& text.skip(last_place(text, '.') + 1) == hex_text(lease_tag(key, lease_body(text)))
}

/// The scope that an authorisation grants under a key, or why it grants none.
pub open spec fn lease_read(text: Seq<char>, key: Seq<u8>, now: u64) -> Result<Scope, Seq<char>> {
    scope_read(lease_body(text), is_signed(text, key), now)
}

/// Reads the scope that an authorisation grants: one that was signed with the
/// key and has not expired.
pub fn read_signed(text: &str, key: &[u8], now: u64) -> (r: Result<Scope, String>)
    ensures
        reasoned(r) == lease_read(text@, key@, now),
{
    let v = chars_of(text);
    proof {
        lemma_last_place(v@, '.');
    }
    match find_last(&v, '.') {
        None => read_scope(text, false, now),
        Some(i) => {
            let body = string_of(&slice_of(&v, 0, i));
            let tail = slice_of(&v, i + 1, v.len());
            assert(body@ =~= lease_body(text@));
            assert(tail@ =~= text@.skip(i + 1));
            let signed = match read_hex(&tail) {
                None => false,
                Some(tag) => {
                    proof {
                        if hex_text(lease_tag(key@, body@)) == tail@ {
                            lemma_hex_differs(tag@, lease_tag(key@, body@));
                        }
                    }
                    check_tag(key, body.as_str(), &tag)
                },
            };
            assert(signed == is_signed(text@, key@));
            read_scope(body.as_str(), signed, now)
        },
    }
}

/// A scope that was signed reads back as itself under the same key until it
/// expires, and is refused from then on.
pub proof fn law_signed_scope_reads_back(s: Scope, key: Seq<u8>, now: u64)
    ensures
        now <= s.exp ==> lease_read(signed_text(key, s), key, now) == Ok::<Scope, Seq<char>>(s),
        now > s.exp ==> lease_read(signed_text(key, s), key, now) == Err::<Scope, Seq<char>>(
            "scope expired; discover again"@,
        ),
{
    let head = scope_text(s).push('.');
    let tag = lease_tag(key, scope_text(s));
    let tail = hex_text(tag);
    let text = signed_text(key, s);
    assert forall|i: int| 0 <= i < tail.len() implies #[trigger] tail[i] != '.' by {
        let b = tag[i / 2] as int;
        lemma_hex_char(b / 16, b % 16);
        lemma_hex_char(b % 16, b / 16);
    }
    lemma_last_place_in(head, tail, '.');
    assert(lease_body(text) =~= scope_text(s));
    assert(text.skip(head.len() as int) =~= tail);
    law_scope_reads_back(s, now);
}

/// What is taken under a key carries the keyed hash of all that it says, and
/// its time has not passed.
pub proof fn law_only_signed_texts(text: Seq<char>, key: Seq<u8>, now: u64)
    requires
        lease_read(text, key, now) is Ok,
    ensures
        text == lease_body(text).push('.') + hex_text(lease_tag(key, lease_body(text))),
        now <= lease_read(text, key, now)->Ok_0.exp,
{
    lemma_last_place(text, '.');
    let i = last_place(text, '.');
    assert(text =~= text.take(i).push('.') + text.skip(i + 1));
}

/// The text of a scope is its window, its number and its time, with a dot
/// between them.
pub proof fn law_scope_text_names_window_number_and_time(s: Scope)
    ensures
        pieces(scope_text(s), '.').len() == 3,
        signed_read(pieces(scope_text(s), '.')[0]) == Some(s.hwnd as int),
        unsigned_read(pieces(scope_text(s), '.')[1]) == Some(s.generation as int),
        unsigned_read(pieces(scope_text(s), '.')[2]) == Some(s.exp as int),
{
    let a = decimal_int(s.hwnd as int);
    let b = decimal(s.generation as nat);
    let c = decimal(s.exp as nat);
    lemma_decimal_int_free(s.hwnd as int, '.');
    lemma_decimal_int_free(s.generation as int, '.');
    lemma_decimal_int_free(s.exp as int, '.');
    lemma_pieces_one(a, '.');
    lemma_pieces_begin(a, b, '.');
    lemma_pieces_begin(a.push('.') + b, c, '.');
    assert((a.push('.') + b).push('.') + c =~= scope_text(s));
    assert(pieces(scope_text(s), '.') =~= seq![a, b, c]);
    law_decimal_reads_back(s.hwnd as int);
    law_decimal_reads_back(s.generation as int);
    law_decimal_reads_back(s.exp as int);
}

/// What is granted is what the three fields of the text say; a text with any
/// other number of fields, or with a field that is no number of its size,
/// grants nothing, nor does one without its signature, nor one whose time has
/// passed. The first of these that fails is told.
pub proof fn law_scope_says_what_is_granted(body: Seq<char>, signed: bool, now: u64)
    ensures
        ({
            let rows = pieces(body, '.');
            let hwnd = signed_read(rows[0]);
            let generation = unsigned_read(rows[1]);
            let exp = unsigned_read(rows[2]);
            let well = {
                &&& rows.len() == 3
                &&& hwnd is Some && isize::MIN <= hwnd->0 <= isize::MAX
                &&& generation is Some && generation->0 <= u64::MAX
                &&& exp is Some && exp->0 <= u64::MAX
            };
            let r = scope_read(body, signed, now);
            &&& r is Ok <==> signed && well && now <= exp->0
            &&& r matches Ok(s) ==> s.hwnd == hwnd->0 && s.generation == generation->0 && s.exp
                == exp->0
            &&& !signed ==> r == Err::<Scope, Seq<char>>(
                "scope signature does not match; discover again"@,
            )
            &&& signed && !well ==> r == Err::<Scope, Seq<char>>("malformed scope"@)
            &&& signed && well && now > exp->0 ==> r == Err::<Scope, Seq<char>>(
                "scope expired; discover again"@,
            )
        }),
{
    let rows = pieces(body, '.');
    lemma_reads_are_natural(rows[1]);
    lemma_reads_are_natural(rows[2]);
}

/// Each byte is two hexadecimal digits, the higher one first, and the digits
/// are the ten and then the first six small letters.
pub proof fn law_hexadecimal_has_two_digits_a_byte(b: Seq<u8>, i: int)
    requires
        0 <= i < b.len(),
    ensures
        hex_text(b).len() == 2 * b.len(),
        hex_text(b)[2 * i] == "0123456789abcdef"@[b[i] as int / 16],
        hex_text(b)[2 * i + 1] == "0123456789abcdef"@[b[i] as int % 16],
{
    reveal_strlit("0123456789abcdef");
    lemma_digit_of(b[i] as int / 16);
    lemma_digit_of(b[i] as int % 16);
}

proof fn lemma_digit_of(n: int)
    requires
        0 <= n < 16,
    ensures
        hex_char(n) == "0123456789abcdef"@[n],
{
    reveal_strlit("0123456789abcdef");
    let all = "0123456789abcdef"@;
    assert(all[0] == '0' && all[1] == '1' && all[2] == '2' && all[3] == '3' && all[4] == '4');
    assert(all[5] == '5' && all[6] == '6' && all[7] == '7' && all[8] == '8' && all[9] == '9');
    assert(all[10] == 'a' && all[11] == 'b' && all[12] == 'c' && all[13] == 'd');
    assert(all[14] == 'e' && all[15] == 'f');
}

/// A result over characters is the same result: the scope that was read, or
/// the reason that was given.
pub proof fn law_reason_is_what_was_given(r: Result<Scope, String>)
    ensures
        r matches Ok(s) ==> reasoned(r) == Ok::<Scope, Seq<char>>(s),
        r matches Err(e) ==> reasoned(r) == Err::<Scope, Seq<char>>(e@),
{
}

} // verus!
