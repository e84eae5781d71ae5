//! The wire format of the service, specified and implemented over bytes.
//!
//! The request grammar accepted by the user-creation route is a JSON
//! object whose `"username"` member holds a string and appears exactly
//! once; other members are accepted and skipped whatever JSON value
//! they hold. Inside strings the usual short escapes (`\"` `\\` `\/`
//! `\b` `\f` `\n` `\r` `\t`) and `\uXXXX` escapes are decoded to UTF-8,
//! surrogate pairs combined and lone surrogates refused; raw bytes must
//! be well-formed UTF-8 and raw control bytes are refused, so a body
//! that is not JSON text never parses. The response serializer emits
//! `{"id":<digits>,"username":"<escaped>"}`, escaping quotes,
//! backslashes and control bytes, so that serializing and then parsing
//! gives back exactly the username that went in.

use vstd::prelude::*;

use crate::user::CreateUser;
use crate::user::User;

verus! {

pub const QUOTE: u8 = 34;
pub const BACKSLASH: u8 = 92;
pub const LBRACE: u8 = 123;
pub const RBRACE: u8 = 125;
pub const COLON: u8 = 58;
pub const LETTER_U: u8 = 117;

/// JSON insignificant whitespace: space, tab, line feed, carriage return.
pub open spec fn is_ws(b: u8) -> bool {
    b == 32 || b == 9 || b == 10 || b == 13
}

/// The input with its leading whitespace removed.
pub open spec fn trim_ws(s: Seq<u8>) -> Seq<u8>
    decreases s.len(),
{
    if s.len() > 0 && is_ws(s[0]) {
        trim_ws(s.drop_first())
    } else {
        s
    }
}

/// The byte that a short escape `\e` stands for, if `e` is one.
pub open spec fn unescape_simple(e: u8) -> Option<u8> {
    if e == QUOTE {
        Some(QUOTE)
    } else if e == BACKSLASH {
        Some(BACKSLASH)
    } else if e == 47 {  // '/'
        Some(47)
    } else if e == 98 {  // 'b'
        Some(8)
    } else if e == 102 {  // 'f'
        Some(12)
    } else if e == 110 {  // 'n'
        Some(10)
    } else if e == 114 {  // 'r'
        Some(13)
    } else if e == 116 {  // 't'
        Some(9)
    } else {
        None
    }
}

/// The value of a hexadecimal digit byte, upper or lower case.
pub open spec fn hex_val(b: u8) -> Option<u8> {
    if 48 <= b && b <= 57 {
        Some((b - 48) as u8)
    } else if 97 <= b && b <= 102 {
        Some((b - 87) as u8)
    } else if 65 <= b && b <= 70 {
        Some((b - 55) as u8)
    } else {
        None
    }
}

/// Whether a byte is a UTF-8 continuation byte.
pub open spec fn utf8_cont(b: u8) -> bool {
    128 <= b && b <= 191
}

/// The length of the UTF-8 sequence a lead byte opens, or 0 where the
/// byte can lead no well-formed sequence (stray continuation bytes and
/// the overlong or out-of-range leads 0xC0, 0xC1, 0xF5 and above).
pub open spec fn utf8_len(b: u8) -> int {
    if 194 <= b && b <= 223 {
        2
    } else if 224 <= b && b <= 239 {
        3
    } else if 240 <= b && b <= 244 {
        4
    } else {
        0
    }
}

/// Whether the continuation bytes after the lead `s[0]` make the
/// sequence well formed: overlong encodings, surrogate code points and
/// values above 0x10FFFF are excluded, exactly as the UTF-8 definition
/// demands.
pub open spec fn utf8_follow_ok(s: Seq<u8>) -> bool
    recommends
        s.len() >= utf8_len(s[0]),
{
    let b = s[0];
    if 194 <= b && b <= 223 {
        utf8_cont(s[1])
    } else if b == 224 {
        160 <= s[1] && s[1] <= 191 && utf8_cont(s[2])
    } else if 225 <= b && b <= 236 {
        utf8_cont(s[1]) && utf8_cont(s[2])
    } else if b == 237 {
        128 <= s[1] && s[1] <= 159 && utf8_cont(s[2])
    } else if 238 <= b && b <= 239 {
        utf8_cont(s[1]) && utf8_cont(s[2])
    } else if b == 240 {
        144 <= s[1] && s[1] <= 191 && utf8_cont(s[2]) && utf8_cont(s[3])
    } else if 241 <= b && b <= 243 {
        utf8_cont(s[1]) && utf8_cont(s[2]) && utf8_cont(s[3])
    } else if b == 244 {
        128 <= s[1] && s[1] <= 143 && utf8_cont(s[2]) && utf8_cont(s[3])
    } else {
        false
    }
}

/// The UTF-8 encoding of a code point below 0x110000 and outside the
/// surrogate range.
pub open spec fn utf8_encode(c: int) -> Seq<u8>
    recommends
        0 <= c < 0x110000,
{
    if c < 0x80 {
        seq![c as u8]
    } else if c < 0x800 {
        seq![(192 + c / 64) as u8, (128 + c % 64) as u8]
    } else if c < 0x10000 {
        seq![(224 + c / 4096) as u8, (128 + (c / 64) % 64) as u8, (128 + c % 64) as u8]
    } else {
        seq![
            (240 + c / 262144) as u8,
            (128 + (c / 4096) % 64) as u8,
            (128 + (c / 64) % 64) as u8,
            (128 + c % 64) as u8,
        ]
    }
}

/// The length of the well-formed UTF-8 sequence at the front of `s`,
/// whose first byte is 0x80 or above; `None` where none starts here.
pub open spec fn utf8_step(s: Seq<u8>) -> Option<int> {
    let k = utf8_len(s[0]);
    if k == 2 && s.len() >= 2 && utf8_follow_ok(s) {
        Some(2)
    } else if k == 3 && s.len() >= 3 && utf8_follow_ok(s) {
        Some(3)
    } else if k == 4 && s.len() >= 4 && utf8_follow_ok(s) {
        Some(4)
    } else {
        None
    }
}

/// The decoded bytes and the consumed length of the escape sequence at
/// the front of `s`, which starts with a backslash: a short escape, a
/// `\uXXXX` escape decoded to UTF-8, or a surrogate pair combined from
/// two such escapes; `None` where the escape is malformed or a
/// surrogate stands alone.
pub open spec fn escape_step(s: Seq<u8>) -> Option<(Seq<u8>, int)> {
    if s.len() < 2 {
        None
    } else if s[1] == LETTER_U {
        if s.len() < 6 {
            None
        } else {
            match (hex_val(s[2]), hex_val(s[3]), hex_val(s[4]), hex_val(s[5])) {
                (Some(h1), Some(h2), Some(h3), Some(h4)) => {
                    let v: int = (h1 as int) * 4096 + (h2 as int) * 256 + (h3 as int) * 16 + (
                    h4 as int);
                    if !(0xD800 <= v && v <= 0xDFFF) {
                        Some((utf8_encode(v), 6))
                    } else if v <= 0xDBFF {
                        // a high surrogate: only valid paired with a low
                        // surrogate escape right behind it
                        if s.len() < 12 || s[6] != BACKSLASH || s[7] != LETTER_U {
                            None
                        } else {
                            match (hex_val(s[8]), hex_val(s[9]), hex_val(s[10]), hex_val(s[11])) {
                                (Some(g1), Some(g2), Some(g3), Some(g4)) => {
                                    let w: int = (g1 as int) * 4096 + (g2 as int) * 256 + (
                                    g3 as int) * 16 + (g4 as int);
                                    if 0xDC00 <= w && w <= 0xDFFF {
                                        Some(
                                            (
                                                utf8_encode(
                                                    0x10000 + (v - 0xD800) * 1024 + (w - 0xDC00),
                                                ),
                                                12,
                                            ),
                                        )
                                    } else {
                                        None
                                    }
                                },
                                _ => None,
                            }
                        }
                    } else {
                        // a lone low surrogate
                        None
                    }
                },
                _ => None,
            }
        }
    } else {
        match unescape_simple(s[1]) {
            Some(u) => Some((seq![u], 2)),
            None => None,
        }
    }
}

/// Whether a username's bytes can appear inside a JSON string as this
/// crate writes one: every byte below 0x80 stands alone (the serializer
/// escapes the delicate ones), and every byte above opens or continues a
/// well-formed UTF-8 sequence. This is exactly well-formed UTF-8 up to
/// the bytes the serializer escapes.
pub open spec fn is_username_encodable(s: Seq<u8>) -> bool
    decreases s.len(),
{
    if s.len() == 0 {
        true
    } else if s[0] < 128 {
        is_username_encodable(s.drop_first())
    } else {
        match utf8_step(s) {
            Some(k) => if 1 <= k && k <= s.len() {
                is_username_encodable(s.subrange(k, s.len() as int))
            } else {
                false
            },
            None => false,
        }
    }
}

/// Parse the body of a JSON string, the opening quote already consumed:
/// the decoded content together with the input remaining after the
/// closing quote, or `None` if the string is malformed. Raw bytes must
/// be well-formed UTF-8 and above 0x1F; escapes are decoded, `\uXXXX`
/// to the UTF-8 bytes of the code point, with surrogate pairs combined
/// and lone surrogates refused.
pub open spec fn parse_string_body(s: Seq<u8>) -> Option<(Seq<u8>, Seq<u8>)>
    decreases s.len(),
{
    if s.len() == 0 {
        None
    } else if s[0] == QUOTE {
        Some((Seq::empty(), s.drop_first()))
    } else if s[0] == BACKSLASH {
        match escape_step(s) {
            Some((dec, used)) => if 1 <= used && used <= s.len() {
                match parse_string_body(s.subrange(used, s.len() as int)) {
                    Some((t, rem)) => Some((dec + t, rem)),
                    None => None,
                }
            } else {
                None
            },
            None => None,
        }
    } else if s[0] < 32 {
        None
    } else if s[0] <= 127 {
        match parse_string_body(s.drop_first()) {
            Some((t, rem)) => Some((seq![s[0]] + t, rem)),
            None => None,
        }
    } else {
        match utf8_step(s) {
            Some(k) => if 1 <= k && k <= s.len() {
                match parse_string_body(s.subrange(k, s.len() as int)) {
                    Some((t, rem)) => Some((s.subrange(0, k) + t, rem)),
                    None => None,
                }
            } else {
                None
            },
            None => None,
        }
    }
}

/// One byte of required punctuation: the rest of the input, or `None`.
pub open spec fn expect_byte(s: Seq<u8>, b: u8) -> Option<Seq<u8>> {
    if s.len() > 0 && s[0] == b {
        Some(s.drop_first())
    } else {
        None
    }
}

/// The bytes of the member name `username`.
pub open spec fn username_key() -> Seq<u8> {
    seq![117u8, 115u8, 101u8, 114u8, 110u8, 97u8, 109u8, 101u8]
}

/// The input with its leading decimal digits removed.
pub open spec fn skip_digits(s: Seq<u8>) -> Seq<u8>
    decreases s.len(),
{
    if s.len() > 0 && 48 <= s[0] && s[0] <= 57 {
        skip_digits(s.drop_first())
    } else {
        s
    }
}

/// The input after one JSON number (optional minus, an integer part
/// with no leading zero, optional fraction and exponent), or `None`
/// where none stands at the front.
pub open spec fn skip_number(s: Seq<u8>) -> Option<Seq<u8>> {
    let s1 = if s.len() > 0 && s[0] == 45 {
        s.drop_first()
    } else {
        s
    };
    if s1.len() == 0 || !(48 <= s1[0] && s1[0] <= 57) {
        None
    } else {
        let s2 = if s1[0] == 48 {
            s1.drop_first()
        } else {
            skip_digits(s1)
        };
        let fr = if s2.len() > 0 && s2[0] == 46 {
            let f = s2.drop_first();
            if f.len() > 0 && 48 <= f[0] && f[0] <= 57 {
                Some(skip_digits(f))
            } else {
                None
            }
        } else {
            Some(s2)
        };
        match fr {
            None => None,
            Some(s3) => if s3.len() > 0 && (s3[0] == 101 || s3[0] == 69) {
                let e = s3.drop_first();
                let e2 = if e.len() > 0 && (e[0] == 43 || e[0] == 45) {
                    e.drop_first()
                } else {
                    e
                };
                if e2.len() > 0 && 48 <= e2[0] && e2[0] <= 57 {
                    Some(skip_digits(e2))
                } else {
                    None
                }
            } else {
                Some(s3)
            },
        }
    }
}

/// The input after one JSON value, or `None` where none stands at the
/// front. The fuel bounds the depth of the walk; every recursive call
/// first consumes input, so any fuel above the input's length is enough.
pub open spec fn skip_value(s: Seq<u8>, fuel: nat) -> Option<Seq<u8>>
    decreases fuel, 0int,
{
    if fuel == 0 || s.len() == 0 {
        None
    } else if s[0] == QUOTE {
        match parse_string_body(s.drop_first()) {
            Some((_c, rem)) => Some(rem),
            None => None,
        }
    } else if s[0] == LBRACE {
        skip_members(trim_ws(s.drop_first()), (fuel - 1) as nat, true)
    } else if s[0] == 91 {
        skip_items(trim_ws(s.drop_first()), (fuel - 1) as nat, true)
    } else if s[0] == 116 {
        if s.len() >= 4 && s[1] == 114 && s[2] == 117 && s[3] == 101 {
            Some(s.subrange(4, s.len() as int))
        } else {
            None
        }
    } else if s[0] == 102 {
        if s.len() >= 5 && s[1] == 97 && s[2] == 108 && s[3] == 115 && s[4] == 101 {
            Some(s.subrange(5, s.len() as int))
        } else {
            None
        }
    } else if s[0] == 110 {
        if s.len() >= 4 && s[1] == 117 && s[2] == 108 && s[3] == 108 {
            Some(s.subrange(4, s.len() as int))
        } else {
            None
        }
    } else if s[0] == 45 || (48 <= s[0] && s[0] <= 57) {
        skip_number(s)
    } else {
        None
    }
}

/// After an object's opening brace and whitespace: the input after the
/// matching closing brace, the members themselves ignored.
pub open spec fn skip_members(s: Seq<u8>, fuel: nat, first: bool) -> Option<Seq<u8>>
    decreases fuel, 0int,
{
    if fuel == 0 || s.len() == 0 {
        None
    } else if first && s[0] == RBRACE {
        Some(s.drop_first())
    } else if s[0] != QUOTE {
        None
    } else {
        match parse_string_body(s.drop_first()) {
            None => None,
            Some((_k, r1)) => match expect_byte(trim_ws(r1), COLON) {
                None => None,
                Some(r2) => match skip_value(trim_ws(r2), (fuel - 1) as nat) {
                    None => None,
                    Some(r3) => {
                        let r4 = trim_ws(r3);
                        if r4.len() == 0 {
                            None
                        } else if r4[0] == 44 {
                            skip_members(trim_ws(r4.drop_first()), (fuel - 1) as nat, false)
                        } else if r4[0] == RBRACE {
                            Some(r4.drop_first())
                        } else {
                            None
                        }
                    },
                },
            },
        }
    }
}

/// After an array's opening bracket and whitespace: the input after the
/// matching closing bracket, the items themselves ignored.
pub open spec fn skip_items(s: Seq<u8>, fuel: nat, first: bool) -> Option<Seq<u8>>
    decreases fuel, 1int,
{
    if fuel == 0 || s.len() == 0 {
        None
    } else if first && s[0] == 93 {
        Some(s.drop_first())
    } else {
        match skip_value(s, fuel) {
            None => None,
            Some(r1) => {
                let r2 = trim_ws(r1);
                if r2.len() == 0 {
                    None
                } else if r2[0] == 44 {
                    skip_items(trim_ws(r2.drop_first()), (fuel - 1) as nat, false)
                } else if r2[0] == 93 {
                    Some(r2.drop_first())
                } else {
                    None
                }
            },
        }
    }
}

/// Walk an object's members, after its opening brace and whitespace:
/// the decoded value of the `"username"` member, which must be a string
/// and appear at most once, other members skipped whatever JSON value
/// they hold, together with the input after the closing brace.
pub open spec fn parse_user_members(
    s: Seq<u8>,
    acc: Option<Seq<u8>>,
    fuel: nat,
    first: bool,
) -> Option<(Option<Seq<u8>>, Seq<u8>)>
    decreases fuel,
{
    if fuel == 0 || s.len() == 0 {
        None
    } else if first && s[0] == RBRACE {
        Some((acc, s.drop_first()))
    } else if s[0] != QUOTE {
        None
    } else {
        match parse_string_body(s.drop_first()) {
            None => None,
            Some((key, r1)) => match expect_byte(trim_ws(r1), COLON) {
                None => None,
                Some(r2) => if key == username_key() {
                    if acc is Some {
                        // a duplicate member is refused
                        None
                    } else {
                        let r2t = trim_ws(r2);
                        if r2t.len() > 0 && r2t[0] == QUOTE {
                            match parse_string_body(r2t.drop_first()) {
                                None => None,
                                Some((val, r3)) => {
                                    let r4 = trim_ws(r3);
                                    if r4.len() == 0 {
                                        None
                                    } else if r4[0] == 44 {
                                        parse_user_members(
                                            trim_ws(r4.drop_first()),
                                            Some(val),
                                            (fuel - 1) as nat,
                                            false,
                                        )
                                    } else if r4[0] == RBRACE {
                                        Some((Some(val), r4.drop_first()))
                                    } else {
                                        None
                                    }
                                },
                            }
                        } else {
                            // the username member must hold a string
                            None
                        }
                    }
                } else {
                    match skip_value(trim_ws(r2), (fuel - 1) as nat) {
                        None => None,
                        Some(r3) => {
                            let r4 = trim_ws(r3);
                            if r4.len() == 0 {
                                None
                            } else if r4[0] == 44 {
                                parse_user_members(
                                    trim_ws(r4.drop_first()),
                                    acc,
                                    (fuel - 1) as nat,
                                    false,
                                )
                            } else if r4[0] == RBRACE {
                                Some((acc, r4.drop_first()))
                            } else {
                                None
                            }
                        },
                    }
                },
            },
        }
    }
}

/// The request grammar of the user-creation route: a JSON object whose
/// `"username"` member holds a string and appears exactly once, with
/// any other members skipped, surrounded by optional whitespace. The
/// result is the decoded username.
pub open spec fn spec_parse_create_user(body: Seq<u8>) -> Option<Seq<u8>> {
    match expect_byte(trim_ws(body), LBRACE) {
        None => None,
        Some(s2) => match parse_user_members(trim_ws(s2), None, (body.len() + 1) as nat, true) {
            None => None,
            Some((found, rem)) => if trim_ws(rem).len() == 0 {
                found
            } else {
                None
            },
        },
    }
}

/// The lower-case hexadecimal digit for a value below 16.
pub open spec fn hex_digit(d: u8) -> u8
    recommends
        d < 16,
{
    if d < 10 {
        (48 + d) as u8
    } else {
        (87 + d) as u8
    }
}

/// How one byte of a username is written inside a JSON string: quotes
/// and backslashes get a short escape, control bytes a `\u00XX` escape,
/// everything else stands for itself.
pub open spec fn escape_byte(b: u8) -> Seq<u8> {
    if b == QUOTE {
        seq![BACKSLASH, QUOTE]
    } else if b == BACKSLASH {
        seq![BACKSLASH, BACKSLASH]
    } else if b < 32 {
        seq![BACKSLASH, LETTER_U, 48u8, 48u8, hex_digit(b / 16), hex_digit(b % 16)]
    } else {
        seq![b]
    }
}

/// A byte sequence written as the body of a JSON string.
pub open spec fn escape_bytes(s: Seq<u8>) -> Seq<u8>
    decreases s.len(),
{
    if s.len() == 0 {
        Seq::empty()
    } else {
        escape_byte(s[0]) + escape_bytes(s.drop_first())
    }
}

/// The decimal digits of a non-negative integer, most significant first.
pub open spec fn dec_digits(n: int) -> Seq<u8>
    recommends
        n >= 0,
    decreases n,
{
    if n < 10 {
        seq![(48 + n) as u8]
    } else {
        dec_digits(n / 10) + seq![(48 + n % 10) as u8]
    }
}

/// The bytes `{"id":`.
pub open spec fn user_json_prefix() -> Seq<u8> {
    seq![123u8, 34u8, 105u8, 100u8, 34u8, 58u8]
}

/// The bytes `,"username":"`.
pub open spec fn user_json_mid() -> Seq<u8> {
    seq![44u8, 34u8] + username_key() + seq![34u8, 58u8, 34u8]
}

/// The serialized form of a user: `{"id":<digits>,"username":"<escaped>"}`.
pub open spec fn spec_user_json(id: int, name: Seq<u8>) -> Seq<u8> {
    user_json_prefix() + dec_digits(id) + user_json_mid() + escape_bytes(name) + seq![34u8, 125u8]
}

/// The canonical serialized form of a creation request:
/// `{"username":"<escaped>"}`.
pub open spec fn spec_create_user_body(name: Seq<u8>) -> Seq<u8> {
    seq![123u8, 34u8] + username_key() + seq![34u8, 58u8, 34u8] + escape_bytes(name)
        + seq![34u8, 125u8]
}

fn is_ws_exec(b: u8) -> (r: bool)
    ensures
        r == is_ws(b),
{
    b == 32 || b == 9 || b == 10 || b == 13
}

fn hex_val_exec(b: u8) -> (r: Option<u8>)
    ensures
        r == hex_val(b),
{
    if 48 <= b && b <= 57 {
        Some(b - 48)
    } else if 97 <= b && b <= 102 {
        Some(b - 87)
    } else if 65 <= b && b <= 70 {
        Some(b - 55)
    } else {
        None
    }
}

fn unescape_simple_exec(e: u8) -> (r: Option<u8>)
    ensures
        r == unescape_simple(e),
{
    if e == QUOTE {
        Some(QUOTE)
    } else if e == BACKSLASH {
        Some(BACKSLASH)
    } else if e == 47 {
        Some(47)
    } else if e == 98 {
        Some(8)
    } else if e == 102 {
        Some(12)
    } else if e == 110 {
        Some(10)
    } else if e == 114 {
        Some(13)
    } else if e == 116 {
        Some(9)
    } else {
        None
    }
}

/// Whether two byte slices hold the same bytes.
pub fn bytes_eq(a: &[u8], b: &[u8]) -> (r: bool)
    ensures
        r <==> a@ == b@,
{
    if a.len() != b.len() {
        proof {
            if a@ == b@ {
                assert(a@.len() == b@.len());
            }
        }
        return false;
    }
    let mut k: usize = 0;
    while k < a.len()
        invariant
            k <= a@.len(),
            a@.len() == b@.len(),
            forall|m: int| 0 <= m < k ==> a@[m] == b@[m],
        decreases a@.len() - k,
    {
        if a[k] != b[k] {
            proof {
                if a@ == b@ {
                    assert(a@[k as int] == b@[k as int]);
                }
            }
            return false;
        }
        k += 1;
    }
    proof {
        assert(a@ =~= b@);
    }
    true
}

/// Index just past the leading whitespace from position `i` on.
fn trim_ws_exec(s: &[u8], i: usize) -> (r: usize)
    requires
        i <= s@.len(),
    ensures
        i <= r <= s@.len(),
        s@.subrange(r as int, s@.len() as int) == trim_ws(
            s@.subrange(i as int, s@.len() as int),
        ),
{
    let mut j = i;
    while j < s.len() && is_ws_exec(s[j])
        invariant
            i <= j <= s@.len(),
            trim_ws(s@.subrange(i as int, s@.len() as int)) == trim_ws(
                s@.subrange(j as int, s@.len() as int),
            ),
        decreases s@.len() - j,
    {
        proof {
            let sub = s@.subrange(j as int, s@.len() as int);
            assert(sub.len() > 0 && is_ws(sub[0]));
            assert(sub.drop_first() =~= s@.subrange(j as int + 1, s@.len() as int));
        }
        j += 1;
    }
    proof {
        let sub = s@.subrange(j as int, s@.len() as int);
        if j < s@.len() {
            assert(!is_ws(sub[0]));
        }
        assert(trim_ws(sub) == sub);
    }
    j
}

/// One byte of required punctuation at position `i`: the next position,
/// or `None` where the input ends or holds another byte.
fn expect_byte_exec(s: &[u8], i: usize, b: u8) -> (r: Option<usize>)
    requires
        i <= s@.len(),
    ensures
        match r {
            Some(j) => i < j <= s@.len() && expect_byte(
                s@.subrange(i as int, s@.len() as int),
                b,
            ) == Some(s@.subrange(j as int, s@.len() as int)),
            None => expect_byte(s@.subrange(i as int, s@.len() as int), b) is None,
        },
{
    if i < s.len() && s[i] == b {
        proof {
            let sub = s@.subrange(i as int, s@.len() as int);
            assert(sub[0] == b);
            assert(sub.drop_first() =~= s@.subrange(i as int + 1, s@.len() as int));
        }
        Some(i + 1)
    } else {
        proof {
            let sub = s@.subrange(i as int, s@.len() as int);
            if i < s@.len() {
                assert(sub[0] == s@[i as int]);
            }
        }
        None
    }
}

/// Append the UTF-8 encoding of a code point to a byte vector.
fn push_encoded(acc: &mut Vec<u8>, c: u32)
    requires
        c < 0x110000,
    ensures
        final(acc)@ == old(acc)@ + utf8_encode(c as int),
{
    let ghost before = acc@;
    if c < 0x80 {
        acc.push(c as u8);
    } else if c < 0x800 {
        acc.push((192 + c / 64) as u8);
        acc.push((128 + c % 64) as u8);
    } else if c < 0x10000 {
        acc.push((224 + c / 4096) as u8);
        acc.push((128 + (c / 64) % 64) as u8);
        acc.push((128 + c % 64) as u8);
    } else {
        acc.push((240 + c / 262144) as u8);
        acc.push((128 + (c / 4096) % 64) as u8);
        acc.push((128 + (c / 64) % 64) as u8);
        acc.push((128 + c % 64) as u8);
    }
    proof {
        assert(acc@ =~= before + utf8_encode(c as int));
    }
}

/// Decode one escape sequence at position `j`, which holds a backslash,
/// appending the decoded bytes: the consumed length, or `None` where
/// the escape is malformed or a surrogate stands alone.
fn escape_step_exec(s: &[u8], j: usize, acc: &mut Vec<u8>) -> (r: Option<usize>)
    requires
        j < s@.len(),
        s@[j as int] == BACKSLASH,
    ensures
        match r {
            Some(used) => {
                &&& escape_step(s@.subrange(j as int, s@.len() as int)) matches Some(p)
                &&& p.1 == used as int
                &&& 2 <= used
                &&& j + used <= s@.len()
                &&& final(acc)@ == old(acc)@ + p.0
            },
            None => {
                &&& escape_step(s@.subrange(j as int, s@.len() as int)) is None
                &&& final(acc)@ == old(acc)@
            },
        },
{
    if s.len() - j < 2 {
        proof {
            assert(s@.subrange(j as int, s@.len() as int).len() < 2);
        }
        return None;
    }
    let e = s[j + 1];
    proof {
        let now = s@.subrange(j as int, s@.len() as int);
        assert(now[1] == e);
    }
    if e == LETTER_U {
        if s.len() - j < 6 {
            proof {
                assert(s@.subrange(j as int, s@.len() as int).len() < 6);
            }
            return None;
        }
        let h1 = hex_val_exec(s[j + 2]);
        let h2 = hex_val_exec(s[j + 3]);
        let h3 = hex_val_exec(s[j + 4]);
        let h4 = hex_val_exec(s[j + 5]);
        proof {
            let now = s@.subrange(j as int, s@.len() as int);
            assert(now[2] == s@[j + 2] && now[3] == s@[j + 3] && now[4] == s@[j + 4] && now[5]
                == s@[j + 5]);
        }
        match (h1, h2, h3, h4) {
            (Some(d1), Some(d2), Some(d3), Some(d4)) => {
                let v: u32 = (d1 as u32) * 4096 + (d2 as u32) * 256 + (d3 as u32) * 16 + (
                d4 as u32);
                if !(0xD800 <= v && v <= 0xDFFF) {
                    push_encoded(acc, v);
                    Some(6)
                } else if v <= 0xDBFF {
                    if s.len() - j < 12 {
                        proof {
                            assert(s@.subrange(j as int, s@.len() as int).len() < 12);
                        }
                        return None;
                    }
                    let e6 = s[j + 6];
                    let e7 = s[j + 7];
                    proof {
                        let now = s@.subrange(j as int, s@.len() as int);
                        assert(now[6] == e6 && now[7] == e7);
                    }
                    if e6 != BACKSLASH || e7 != LETTER_U {
                        return None;
                    }
                    let g1 = hex_val_exec(s[j + 8]);
                    let g2 = hex_val_exec(s[j + 9]);
                    let g3 = hex_val_exec(s[j + 10]);
                    let g4 = hex_val_exec(s[j + 11]);
                    proof {
                        let now = s@.subrange(j as int, s@.len() as int);
                        assert(now[8] == s@[j + 8] && now[9] == s@[j + 9] && now[10] == s@[j + 10]
                            && now[11] == s@[j + 11]);
                    }
                    match (g1, g2, g3, g4) {
                        (Some(e1), Some(e2), Some(e3), Some(e4)) => {
                            let w: u32 = (e1 as u32) * 4096 + (e2 as u32) * 256 + (e3 as u32) * 16
                                + (e4 as u32);
                            if !(0xDC00 <= w && w <= 0xDFFF) {
                                return None;
                            }
                            let c: u32 = 0x10000 + (v - 0xD800) * 1024 + (w - 0xDC00);
                            push_encoded(acc, c);
                            Some(12)
                        },
                        _ => None,
                    }
                } else {
                    None
                }
            },
            _ => None,
        }
    } else {
        match unescape_simple_exec(e) {
            Some(u) => {
                acc.push(u);
                proof {
                    assert(old(acc)@.push(u) =~= old(acc)@ + seq![u]);
                }
                Some(2)
            },
            None => None,
        }
    }
}

/// Copy one well-formed UTF-8 sequence starting at position `j`, whose
/// byte is 0x80 or above: the consumed length, or `None` where the
/// bytes are not well-formed UTF-8.
fn utf8_step_exec(s: &[u8], j: usize, acc: &mut Vec<u8>) -> (r: Option<usize>)
    requires
        j < s@.len(),
        128 <= s@[j as int],
    ensures
        match r {
            Some(k) => {
                &&& utf8_step(s@.subrange(j as int, s@.len() as int)) == Some(k as int)
                &&& 2 <= k
                &&& j + k <= s@.len()
                &&& final(acc)@ == old(acc)@ + s@.subrange(j as int, j as int + k as int)
            },
            None => {
                &&& utf8_step(s@.subrange(j as int, s@.len() as int)) is None
                &&& final(acc)@ == old(acc)@
            },
        },
{
    let b = s[j];
    proof {
        let now = s@.subrange(j as int, s@.len() as int);
        assert(now[0] == b);
    }
    let k: usize = if 194 <= b && b <= 223 {
        2
    } else if 224 <= b && b <= 239 {
        3
    } else if 240 <= b && b <= 244 {
        4
    } else {
        0
    };
    proof {
        assert(utf8_len(b) == k);
    }
    if k == 0 {
        return None;
    }
    if s.len() - j < k {
        proof {
            assert(s@.subrange(j as int, s@.len() as int).len() < k);
        }
        return None;
    }
    let c1 = s[j + 1];
    let ok: bool = if b == 224 {
        let c2 = s[j + 2];
        160 <= c1 && c1 <= 191 && 128 <= c2 && c2 <= 191
    } else if b == 237 {
        let c2 = s[j + 2];
        128 <= c1 && c1 <= 159 && 128 <= c2 && c2 <= 191
    } else if b == 240 {
        let c2 = s[j + 2];
        let c3 = s[j + 3];
        144 <= c1 && c1 <= 191 && 128 <= c2 && c2 <= 191 && 128 <= c3 && c3 <= 191
    } else if b == 244 {
        let c2 = s[j + 2];
        let c3 = s[j + 3];
        128 <= c1 && c1 <= 143 && 128 <= c2 && c2 <= 191 && 128 <= c3 && c3 <= 191
    } else if k == 2 {
        128 <= c1 && c1 <= 191
    } else if k == 3 {
        let c2 = s[j + 2];
        128 <= c1 && c1 <= 191 && 128 <= c2 && c2 <= 191
    } else {
        let c2 = s[j + 2];
        let c3 = s[j + 3];
        128 <= c1 && c1 <= 191 && 128 <= c2 && c2 <= 191 && 128 <= c3 && c3 <= 191
    };
    proof {
        let now = s@.subrange(j as int, s@.len() as int);
        assert(now[1] == s@[j + 1]);
        if k >= 3 {
            assert(now[2] == s@[j + 2]);
        }
        if k >= 4 {
            assert(now[3] == s@[j + 3]);
        }
        assert(ok == utf8_follow_ok(now));
    }
    if !ok {
        return None;
    }
    let ghost before = acc@;
    acc.push(b);
    acc.push(c1);
    if k >= 3 {
        acc.push(s[j + 2]);
    }
    if k == 4 {
        acc.push(s[j + 3]);
    }
    proof {
        assert(acc@ =~= before + s@.subrange(j as int, j as int + k as int));
    }
    Some(k)
}

/// Parse the body of a JSON string starting at position `i`, the opening
/// quote already consumed: the decoded content and the position after the
/// closing quote.
#[verifier::rlimit(100)]
fn parse_string_body_exec(s: &[u8], i: usize) -> (r: Option<(Vec<u8>, usize)>)
    requires
        i <= s@.len(),
    ensures
        match r {
            Some(p) => i <= p.1 <= s@.len() && parse_string_body(
                s@.subrange(i as int, s@.len() as int),
            ) == Some((p.0@, s@.subrange(p.1 as int, s@.len() as int))),
            None => parse_string_body(s@.subrange(i as int, s@.len() as int)) is None,
        },
{
    let mut j = i;
    let mut acc: Vec<u8> = Vec::new();
    loop
        invariant
            i <= j <= s@.len(),
            (parse_string_body(s@.subrange(i as int, s@.len() as int)) is Some
                <==> parse_string_body(s@.subrange(j as int, s@.len() as int)) is Some),
            (match parse_string_body(s@.subrange(j as int, s@.len() as int)) {
                Some((t, rem)) => parse_string_body(s@.subrange(i as int, s@.len() as int))
                    == Some((acc@ + t, rem)),
                None => true,
            }),
        decreases s@.len() - j,
    {
        if j == s.len() {
            proof {
                assert(s@.subrange(j as int, s@.len() as int).len() == 0);
            }
            return None;
        }
        let b = s[j];
        proof {
            let now = s@.subrange(j as int, s@.len() as int);
            assert(now.len() > 0);
            assert(now[0] == b);
        }
        if b == QUOTE {
            proof {
                let now = s@.subrange(j as int, s@.len() as int);
                assert(now.drop_first() =~= s@.subrange(j as int + 1, s@.len() as int));
                assert(parse_string_body(now) == Some(
                    (Seq::<u8>::empty(), s@.subrange(j as int + 1, s@.len() as int)),
                ));
                assert(acc@ + Seq::<u8>::empty() =~= acc@);
            }
            return Some((acc, j + 1));
        }
        if b == BACKSLASH {
            let ghost before = acc@;
            let step = escape_step_exec(s, j, &mut acc);
            match step {
                Some(used) => {
                    proof {
                        let now = s@.subrange(j as int, s@.len() as int);
                        let nxt = s@.subrange(j as int + used as int, s@.len() as int);
                        assert(now.subrange(used as int, now.len() as int) =~= nxt);
                        match escape_step(now) {
                            Some(p) => {
                                match parse_string_body(nxt) {
                                    Some((t, rem)) => {
                                        assert(parse_string_body(now) == Some((p.0 + t, rem)));
                                        assert(before + (p.0 + t) =~= (before + p.0) + t);
                                    },
                                    None => {
                                        assert(parse_string_body(now) is None);
                                    },
                                }
                            },
                            None => {
                                assert(false);
                            },
                        }
                    }
                    j += used;
                },
                None => {
                    return None;
                },
            }
        } else if b < 32 {
            return None;
        } else if b <= 127 {
            proof {
                let now = s@.subrange(j as int, s@.len() as int);
                let nxt = s@.subrange(j as int + 1, s@.len() as int);
                assert(now.drop_first() =~= nxt);
                match parse_string_body(nxt) {
                    Some((t, rem)) => {
                        assert(parse_string_body(now) == Some((seq![b] + t, rem)));
                        assert(acc@ + (seq![b] + t) =~= acc@.push(b) + t);
                    },
                    None => {
                        assert(parse_string_body(now) is None);
                    },
                }
            }
            acc.push(b);
            j += 1;
        } else {
            let ghost before = acc@;
            let step = utf8_step_exec(s, j, &mut acc);
            match step {
                Some(k) => {
                    proof {
                        let now = s@.subrange(j as int, s@.len() as int);
                        let nxt = s@.subrange(j as int + k as int, s@.len() as int);
                        assert(now.subrange(k as int, now.len() as int) =~= nxt);
                        assert(now.subrange(0, k as int) =~= s@.subrange(
                            j as int,
                            j as int + k as int,
                        ));
                        match parse_string_body(nxt) {
                            Some((t, rem)) => {
                                assert(parse_string_body(now) == Some(
                                    (now.subrange(0, k as int) + t, rem),
                                ));
                                assert(before + (now.subrange(0, k as int) + t) =~= (before
                                    + now.subrange(0, k as int)) + t);
                            },
                            None => {
                                assert(parse_string_body(now) is None);
                            },
                        }
                    }
                    j += k;
                },
                None => {
                    return None;
                },
            }
        }
    }
}

/// Index just past the decimal digits from position `i` on.
fn skip_digits_exec(s: &[u8], i: usize) -> (r: usize)
    requires
        i <= s@.len(),
    ensures
        i <= r <= s@.len(),
        s@.subrange(r as int, s@.len() as int) == skip_digits(
            s@.subrange(i as int, s@.len() as int),
        ),
{
    let mut j = i;
    while j < s.len() && 48 <= s[j] && s[j] <= 57
        invariant
            i <= j <= s@.len(),
            skip_digits(s@.subrange(i as int, s@.len() as int)) == skip_digits(
                s@.subrange(j as int, s@.len() as int),
            ),
        decreases s@.len() - j,
    {
        proof {
            let sub = s@.subrange(j as int, s@.len() as int);
            assert(sub.len() > 0 && 48 <= sub[0] && sub[0] <= 57);
            assert(sub.drop_first() =~= s@.subrange(j as int + 1, s@.len() as int));
        }
        j += 1;
    }
    proof {
        let sub = s@.subrange(j as int, s@.len() as int);
        if j < s@.len() {
            assert(sub[0] == s@[j as int]);
        }
        assert(skip_digits(sub) == sub);
    }
    j
}

/// Skip one JSON number starting at position `i`: the position after
/// it, or `None` where none stands there.
#[verifier::spinoff_prover]
#[verifier::rlimit(100)]
fn skip_number_exec(s: &[u8], i: usize) -> (r: Option<usize>)
    requires
        i <= s@.len(),
    ensures
        match r {
            Some(j) => i <= j <= s@.len() && skip_number(s@.subrange(i as int, s@.len() as int))
                == Some(s@.subrange(j as int, s@.len() as int)),
            None => skip_number(s@.subrange(i as int, s@.len() as int)) is None,
        },
{
    let i1 = if i < s.len() && s[i] == 45 {
        i + 1
    } else {
        i
    };
    proof {
        let sub = s@.subrange(i as int, s@.len() as int);
        if i < s@.len() {
            assert(sub[0] == s@[i as int]);
        }
        if i1 == i + 1 {
            assert(sub.drop_first() =~= s@.subrange(i1 as int, s@.len() as int));
        }
        assert(s@.subrange(i1 as int, s@.len() as int) == (if sub.len() > 0 && sub[0] == 45 {
            sub.drop_first()
        } else {
            sub
        }));
    }
    if i1 == s.len() {
        return None;
    }
    let d0 = s[i1];
    proof {
        assert(s@.subrange(i1 as int, s@.len() as int)[0] == d0);
    }
    if !(48 <= d0 && d0 <= 57) {
        return None;
    }
    let i2 = if d0 == 48 {
        proof {
            assert(s@.subrange(i1 as int, s@.len() as int).drop_first() =~= s@.subrange(
                i1 as int + 1,
                s@.len() as int,
            ));
        }
        i1 + 1
    } else {
        skip_digits_exec(s, i1)
    };
    let i3 = if i2 < s.len() && s[i2] == 46 {
        proof {
            let s2 = s@.subrange(i2 as int, s@.len() as int);
            assert(s2[0] == s@[i2 as int]);
            assert(s2.drop_first() =~= s@.subrange(i2 as int + 1, s@.len() as int));
        }
        if i2 + 1 == s.len() {
            return None;
        }
        let fd = s[i2 + 1];
        proof {
            assert(s@.subrange(i2 as int + 1, s@.len() as int)[0] == fd);
        }
        if !(48 <= fd && fd <= 57) {
            return None;
        }
        skip_digits_exec(s, i2 + 1)
    } else {
        proof {
            let s2 = s@.subrange(i2 as int, s@.len() as int);
            if i2 < s@.len() {
                assert(s2[0] == s@[i2 as int]);
            }
        }
        i2
    };
    if i3 < s.len() && (s[i3] == 101 || s[i3] == 69) {
        proof {
            let s3 = s@.subrange(i3 as int, s@.len() as int);
            assert(s3[0] == s@[i3 as int]);
            assert(s3.drop_first() =~= s@.subrange(i3 as int + 1, s@.len() as int));
        }
        let i4 = if i3 + 1 < s.len() && (s[i3 + 1] == 43 || s[i3 + 1] == 45) {
            proof {
                let e = s@.subrange(i3 as int + 1, s@.len() as int);
                assert(e[0] == s@[i3 as int + 1]);
                assert(e.drop_first() =~= s@.subrange(i3 as int + 2, s@.len() as int));
            }
            i3 + 2
        } else {
            proof {
                let e = s@.subrange(i3 as int + 1, s@.len() as int);
                if i3 + 1 < s@.len() {
                    assert(e[0] == s@[i3 as int + 1]);
                }
            }
            i3 + 1
        };
        if i4 == s.len() {
            return None;
        }
        let ed = s[i4];
        proof {
            assert(s@.subrange(i4 as int, s@.len() as int)[0] == ed);
        }
        if !(48 <= ed && ed <= 57) {
            return None;
        }
        Some(skip_digits_exec(s, i4))
    } else {
        proof {
            let s3 = s@.subrange(i3 as int, s@.len() as int);
            if i3 < s@.len() {
                assert(s3[0] == s@[i3 as int]);
            }
        }
        Some(i3)
    }
}

/// Skip one JSON value starting at position `i`: the position after it,
/// or `None` where none stands there.
fn skip_value_exec(s: &[u8], i: usize, fuel: Ghost<nat>) -> (r: Option<usize>)
    requires
        i <= s@.len(),
        fuel@ > s@.len() - i,
    ensures
        match r {
            Some(j) => i <= j <= s@.len() && skip_value(
                s@.subrange(i as int, s@.len() as int),
                fuel@,
            ) == Some(s@.subrange(j as int, s@.len() as int)),
            None => skip_value(s@.subrange(i as int, s@.len() as int), fuel@) is None,
        },
    decreases fuel@, s@.len() - i, 0int,
{
    if i == s.len() {
        return None;
    }
    let b = s[i];
    proof {
        let now = s@.subrange(i as int, s@.len() as int);
        assert(now[0] == b);
        assert(now.drop_first() =~= s@.subrange(i as int + 1, s@.len() as int));
    }
    if b == QUOTE {
        match parse_string_body_exec(s, i + 1) {
            Some(p) => Some(p.1),
            None => None,
        }
    } else if b == LBRACE {
        let j = trim_ws_exec(s, i + 1);
        skip_members_exec(s, j, Ghost((fuel@ - 1) as nat), true)
    } else if b == 91 {
        let j = trim_ws_exec(s, i + 1);
        skip_items_exec(s, j, Ghost((fuel@ - 1) as nat), true)
    } else if b == 116 {
        if s.len() - i >= 4 && s[i + 1] == 114 && s[i + 2] == 117 && s[i + 3] == 101 {
            proof {
                let now = s@.subrange(i as int, s@.len() as int);
                assert(now[1] == s@[i + 1] && now[2] == s@[i + 2] && now[3] == s@[i + 3]);
                assert(now.subrange(4, now.len() as int) =~= s@.subrange(
                    i as int + 4,
                    s@.len() as int,
                ));
            }
            Some(i + 4)
        } else {
            proof {
                let now = s@.subrange(i as int, s@.len() as int);
                if now.len() >= 4 {
                    assert(now[1] == s@[i + 1] && now[2] == s@[i + 2] && now[3] == s@[i + 3]);
                }
            }
            None
        }
    } else if b == 102 {
        if s.len() - i >= 5 && s[i + 1] == 97 && s[i + 2] == 108 && s[i + 3] == 115 && s[i + 4]
            == 101 {
            proof {
                let now = s@.subrange(i as int, s@.len() as int);
                assert(now[1] == s@[i + 1] && now[2] == s@[i + 2] && now[3] == s@[i + 3] && now[4]
                    == s@[i + 4]);
                assert(now.subrange(5, now.len() as int) =~= s@.subrange(
                    i as int + 5,
                    s@.len() as int,
                ));
            }
            Some(i + 5)
        } else {
            proof {
                let now = s@.subrange(i as int, s@.len() as int);
                if now.len() >= 5 {
                    assert(now[1] == s@[i + 1] && now[2] == s@[i + 2] && now[3] == s@[i + 3]
                        && now[4] == s@[i + 4]);
                }
            }
            None
        }
    } else if b == 110 {
        if s.len() - i >= 4 && s[i + 1] == 117 && s[i + 2] == 108 && s[i + 3] == 108 {
            proof {
                let now = s@.subrange(i as int, s@.len() as int);
                assert(now[1] == s@[i + 1] && now[2] == s@[i + 2] && now[3] == s@[i + 3]);
                assert(now.subrange(4, now.len() as int) =~= s@.subrange(
                    i as int + 4,
                    s@.len() as int,
                ));
            }
            Some(i + 4)
        } else {
            proof {
                let now = s@.subrange(i as int, s@.len() as int);
                if now.len() >= 4 {
                    assert(now[1] == s@[i + 1] && now[2] == s@[i + 2] && now[3] == s@[i + 3]);
                }
            }
            None
        }
    } else if b == 45 || (48 <= b && b <= 57) {
        skip_number_exec(s, i)
    } else {
        None
    }
}

/// Skip an object's members from position `i`, just inside the brace:
/// the position after the matching closing brace, or `None`.
fn skip_members_exec(s: &[u8], i: usize, fuel: Ghost<nat>, first: bool) -> (r: Option<usize>)
    requires
        i <= s@.len(),
        fuel@ > s@.len() - i,
    ensures
        match r {
            Some(j) => i <= j <= s@.len() && skip_members(
                s@.subrange(i as int, s@.len() as int),
                fuel@,
                first,
            ) == Some(s@.subrange(j as int, s@.len() as int)),
            None => skip_members(s@.subrange(i as int, s@.len() as int), fuel@, first) is None,
        },
    decreases fuel@, s@.len() - i, 0int,
{
    if i == s.len() {
        return None;
    }
    let b = s[i];
    proof {
        let now = s@.subrange(i as int, s@.len() as int);
        assert(now[0] == b);
        assert(now.drop_first() =~= s@.subrange(i as int + 1, s@.len() as int));
    }
    if first && b == RBRACE {
        return Some(i + 1);
    }
    if b != QUOTE {
        return None;
    }
    let r1 = match parse_string_body_exec(s, i + 1) {
        Some(p) => p.1,
        None => {
            return None;
        },
    };
    let r1t = trim_ws_exec(s, r1);
    let r2 = match expect_byte_exec(s, r1t, COLON) {
        Some(k) => k,
        None => {
            return None;
        },
    };
    let r2t = trim_ws_exec(s, r2);
    let r3 = match skip_value_exec(s, r2t, Ghost((fuel@ - 1) as nat)) {
        Some(k) => k,
        None => {
            return None;
        },
    };
    let r4 = trim_ws_exec(s, r3);
    if r4 == s.len() {
        return None;
    }
    let c = s[r4];
    proof {
        let sub = s@.subrange(r4 as int, s@.len() as int);
        assert(sub[0] == c);
        assert(sub.drop_first() =~= s@.subrange(r4 as int + 1, s@.len() as int));
    }
    if c == 44 {
        let j = trim_ws_exec(s, r4 + 1);
        skip_members_exec(s, j, Ghost((fuel@ - 1) as nat), false)
    } else if c == RBRACE {
        Some(r4 + 1)
    } else {
        None
    }
}

/// Skip an array's items from position `i`, just inside the bracket:
/// the position after the matching closing bracket, or `None`.
fn skip_items_exec(s: &[u8], i: usize, fuel: Ghost<nat>, first: bool) -> (r: Option<usize>)
    requires
        i <= s@.len(),
        fuel@ > s@.len() - i,
    ensures
        match r {
            Some(j) => i <= j <= s@.len() && skip_items(
                s@.subrange(i as int, s@.len() as int),
                fuel@,
                first,
            ) == Some(s@.subrange(j as int, s@.len() as int)),
            None => skip_items(s@.subrange(i as int, s@.len() as int), fuel@, first) is None,
        },
    decreases fuel@, s@.len() - i, 1int,
{
    if i == s.len() {
        return None;
    }
    proof {
        let now = s@.subrange(i as int, s@.len() as int);
        assert(now[0] == s@[i as int]);
    }
    if first && s[i] == 93 {
        proof {
            assert(s@.subrange(i as int, s@.len() as int).drop_first() =~= s@.subrange(
                i as int + 1,
                s@.len() as int,
            ));
        }
        return Some(i + 1);
    }
    let r1 = match skip_value_exec(s, i, Ghost(fuel@)) {
        Some(k) => k,
        None => {
            return None;
        },
    };
    let r2 = trim_ws_exec(s, r1);
    if r2 == s.len() {
        return None;
    }
    let c = s[r2];
    proof {
        let sub = s@.subrange(r2 as int, s@.len() as int);
        assert(sub[0] == c);
        assert(sub.drop_first() =~= s@.subrange(r2 as int + 1, s@.len() as int));
    }
    if c == 44 {
        let j = trim_ws_exec(s, r2 + 1);
        skip_items_exec(s, j, Ghost((fuel@ - 1) as nat), false)
    } else if c == 93 {
        Some(r2 + 1)
    } else {
        None
    }
}

/// Parse the body of a user-creation request. Returns the request
/// exactly when the body lies in the request grammar, with the decoded
/// username; `None` on any other body.
#[verifier::spinoff_prover]
#[verifier::rlimit(100)]
pub fn parse_create_user(body: &[u8]) -> (r: Option<CreateUser>)
    ensures
        match r {
            Some(c) => spec_parse_create_user(body@) == Some(c.username@),
            None => spec_parse_create_user(body@) is None,
        },
{
    proof {
        assert(body@.subrange(0, body@.len() as int) =~= body@);
    }
    let i1 = trim_ws_exec(body, 0);
    let start = match expect_byte_exec(body, i1, LBRACE) {
        Some(k) => k,
        None => {
            return None;
        },
    };
    let i0 = trim_ws_exec(body, start);
    let ghost f0: nat = (body@.len() + 1) as nat;
    let mut i = i0;
    let mut found: Option<Vec<u8>> = None;
    let mut first: bool = true;
    let ghost mut fuel: nat = f0;
    let ukey: Vec<u8> = vec![117u8, 115u8, 101u8, 114u8, 110u8, 97u8, 109u8, 101u8];
    proof {
        assert(ukey@ =~= username_key());
    }
    loop
        invariant
            i <= body@.len(),
            ukey@ == username_key(),
            fuel > body@.len() - i,
            parse_user_members(body@.subrange(i0 as int, body@.len() as int), None, f0, true)
                == parse_user_members(
                body@.subrange(i as int, body@.len() as int),
                match found {
                    Some(v) => Some(v@),
                    None => None,
                },
                fuel,
                first,
            ),
            spec_parse_create_user(body@) == (match parse_user_members(
                body@.subrange(i0 as int, body@.len() as int),
                None,
                f0,
                true,
            ) {
                None => None::<Seq<u8>>,
                Some((fnd, rem)) => if trim_ws(rem).len() == 0 {
                    fnd
                } else {
                    None
                },
            }),
        decreases fuel,
    {
        if i == body.len() {
            proof {
                assert(body@.subrange(i as int, body@.len() as int).len() == 0);
            }
            return None;
        }
        let b = body[i];
        proof {
            let now = body@.subrange(i as int, body@.len() as int);
            assert(now[0] == b);
            assert(now.drop_first() =~= body@.subrange(i as int + 1, body@.len() as int));
        }
        if first && b == RBRACE {
            let i_end = trim_ws_exec(body, i + 1);
            if i_end != body.len() {
                proof {
                    assert(trim_ws(body@.subrange(i as int + 1, body@.len() as int)).len() > 0);
                }
                return None;
            }
            proof {
                assert(trim_ws(body@.subrange(i as int + 1, body@.len() as int)).len() == 0);
            }
            match found {
                Some(v) => {
                    return Some(CreateUser { username: v });
                },
                None => {
                    return None;
                },
            }
        }
        if b != QUOTE {
            return None;
        }
        let (key, r1) = match parse_string_body_exec(body, i + 1) {
            Some(p) => p,
            None => {
                return None;
            },
        };
        let r1t = trim_ws_exec(body, r1);
        let r2 = match expect_byte_exec(body, r1t, COLON) {
            Some(k) => k,
            None => {
                return None;
            },
        };
        let r2t = trim_ws_exec(body, r2);
        if bytes_eq(key.as_slice(), ukey.as_slice()) {
            if found.is_some() {
                return None;
            }
            if r2t == body.len() {
                proof {
                    assert(body@.subrange(r2t as int, body@.len() as int).len() == 0);
                }
                return None;
            }
            let q = body[r2t];
            proof {
                let sub = body@.subrange(r2t as int, body@.len() as int);
                assert(sub[0] == q);
                assert(sub.drop_first() =~= body@.subrange(r2t as int + 1, body@.len() as int));
            }
            if q != QUOTE {
                return None;
            }
            let (val, r3) = match parse_string_body_exec(body, r2t + 1) {
                Some(p) => p,
                None => {
                    return None;
                },
            };
            let r4 = trim_ws_exec(body, r3);
            if r4 == body.len() {
                return None;
            }
            let c = body[r4];
            proof {
                let sub = body@.subrange(r4 as int, body@.len() as int);
                assert(sub[0] == c);
                assert(sub.drop_first() =~= body@.subrange(r4 as int + 1, body@.len() as int));
            }
            if c == 44 {
                let inew = trim_ws_exec(body, r4 + 1);
                proof {
                    fuel = (fuel - 1) as nat;
                }
                found = Some(val);
                first = false;
                i = inew;
            } else if c == RBRACE {
                let i_end = trim_ws_exec(body, r4 + 1);
                if i_end != body.len() {
                    proof {
                        assert(trim_ws(body@.subrange(r4 as int + 1, body@.len() as int)).len()
                            > 0);
                    }
                    return None;
                }
                proof {
                    assert(trim_ws(body@.subrange(r4 as int + 1, body@.len() as int)).len() == 0);
                }
                return Some(CreateUser { username: val });
            } else {
                return None;
            }
        } else {
            let r3 = match skip_value_exec(body, r2t, Ghost((fuel - 1) as nat)) {
                Some(k) => k,
                None => {
                    return None;
                },
            };
            let r4 = trim_ws_exec(body, r3);
            if r4 == body.len() {
                return None;
            }
            let c = body[r4];
            proof {
                let sub = body@.subrange(r4 as int, body@.len() as int);
                assert(sub[0] == c);
                assert(sub.drop_first() =~= body@.subrange(r4 as int + 1, body@.len() as int));
            }
            if c == 44 {
                let inew = trim_ws_exec(body, r4 + 1);
                proof {
                    fuel = (fuel - 1) as nat;
                }
                first = false;
                i = inew;
            } else if c == RBRACE {
                let i_end = trim_ws_exec(body, r4 + 1);
                if i_end != body.len() {
                    proof {
                        assert(trim_ws(body@.subrange(r4 as int + 1, body@.len() as int)).len()
                            > 0);
                    }
                    return None;
                }
                proof {
                    assert(trim_ws(body@.subrange(r4 as int + 1, body@.len() as int)).len() == 0);
                }
                match found {
                    Some(v) => {
                        return Some(CreateUser { username: v });
                    },
                    None => {
                        return None;
                    },
                }
            } else {
                return None;
            }
        }
    }
}

/// Escaping a sequence extended by one byte appends that byte's escape.
proof fn lemma_escape_snoc(s: Seq<u8>, b: u8)
    ensures
        escape_bytes(s.push(b)) == escape_bytes(s) + escape_byte(b),
    decreases s.len(),
{
    if s.len() == 0 {
        assert(s.push(b).len() == 1);
        assert(s.push(b)[0] == b);
        assert(s.push(b).drop_first() =~= Seq::<u8>::empty());
        assert(escape_bytes(s.push(b)) == escape_byte(b) + escape_bytes(Seq::<u8>::empty()));
        assert(escape_bytes(Seq::<u8>::empty()) == Seq::<u8>::empty());
        assert(escape_byte(b) + Seq::<u8>::empty() =~= escape_byte(b));
        assert(escape_bytes(s) == Seq::<u8>::empty());
        assert(Seq::<u8>::empty() + escape_byte(b) =~= escape_byte(b));
    } else {
        assert(s.push(b).len() == s.len() + 1 > 1);
        assert(s.push(b)[0] == s[0]);
        assert(s.push(b).drop_first() =~= s.drop_first().push(b));
        assert(escape_bytes(s.push(b)) == escape_byte(s[0]) + escape_bytes(
            s.drop_first().push(b),
        ));
        lemma_escape_snoc(s.drop_first(), b);
        assert(escape_bytes(s.push(b)) == escape_byte(s[0]) + (escape_bytes(s.drop_first())
            + escape_byte(b)));
        assert(escape_byte(s[0]) + (escape_bytes(s.drop_first()) + escape_byte(b)) =~= (escape_byte(
            s[0],
        ) + escape_bytes(s.drop_first())) + escape_byte(b));
        assert(escape_bytes(s) == escape_byte(s[0]) + escape_bytes(s.drop_first()));
    }
}

fn hex_digit_exec(d: u8) -> (r: u8)
    requires
        d < 16,
    ensures
        r == hex_digit(d),
{
    if d < 10 {
        48 + d
    } else {
        87 + d
    }
}

/// Write a byte sequence as the body of a JSON string.
fn escape_exec(s: &[u8]) -> (r: Vec<u8>)
    ensures
        r@ == escape_bytes(s@),
{
    let mut out: Vec<u8> = Vec::new();
    let mut k: usize = 0;
    proof {
        assert(s@.take(0) =~= Seq::<u8>::empty());
    }
    while k < s.len()
        invariant
            k <= s@.len(),
            out@ == escape_bytes(s@.take(k as int)),
        decreases s@.len() - k,
    {
        let b = s[k];
        proof {
            assert(s@.take(k as int + 1) =~= s@.take(k as int).push(b));
            lemma_escape_snoc(s@.take(k as int), b);
        }
        let ghost before = out@;
        if b == QUOTE {
            out.push(BACKSLASH);
            out.push(QUOTE);
            proof {
                assert(out@ =~= before + escape_byte(b));
            }
        } else if b == BACKSLASH {
            out.push(BACKSLASH);
            out.push(BACKSLASH);
            proof {
                assert(out@ =~= before + escape_byte(b));
            }
        } else if b < 32 {
            out.push(BACKSLASH);
            out.push(LETTER_U);
            out.push(48);
            out.push(48);
            out.push(hex_digit_exec(b / 16));
            out.push(hex_digit_exec(b % 16));
            proof {
                assert(out@ =~= before + escape_byte(b));
            }
        } else {
            out.push(b);
            proof {
                assert(out@ =~= before + escape_byte(b));
            }
        }
        k += 1;
    }
    proof {
        assert(s@.take(s@.len() as int) =~= s@);
    }
    out
}

/// The decimal digits of an integer, most significant first.
fn dec_digits_exec(n: u64) -> (r: Vec<u8>)
    ensures
        r@ == dec_digits(n as int),
    decreases n,
{
    if n < 10 {
        let mut v: Vec<u8> = Vec::new();
        v.push(48 + (n as u8));
        proof {
            assert(v@ =~= dec_digits(n as int));
        }
        v
    } else {
        let mut v = dec_digits_exec(n / 10);
        v.push(48 + ((n % 10) as u8));
        proof {
            assert(v@ =~= dec_digits((n as int) / 10) + seq![(48 + (n as int) % 10) as u8]);
        }
        v
    }
}

/// Serialize a user as `{"id":<digits>,"username":"<escaped>"}`.
pub fn serialize_user(u: &User) -> (r: Vec<u8>)
    ensures
        r@ == spec_user_json(u.id as int, u.username@),
{
    let mut out: Vec<u8> = vec![123u8, 34u8, 105u8, 100u8, 34u8, 58u8];
    proof {
        assert(out@ =~= user_json_prefix());
    }
    let mut d = dec_digits_exec(u.id);
    out.append(&mut d);
    let mut mid: Vec<u8> = vec![
        44u8,
        34u8,
        117u8,
        115u8,
        101u8,
        114u8,
        110u8,
        97u8,
        109u8,
        101u8,
        34u8,
        58u8,
        34u8,
    ];
    proof {
        assert(mid@ =~= user_json_mid());
    }
    out.append(&mut mid);
    let mut esc = escape_exec(u.username.as_slice());
    out.append(&mut esc);
    out.push(34u8);
    out.push(125u8);
    proof {
        assert(out@ =~= spec_user_json(u.id as int, u.username@));
    }
    out
}

/// Serialize a creation request in its canonical form
/// `{"username":"<escaped>"}`.
pub fn serialize_create_user(c: &CreateUser) -> (r: Vec<u8>)
    ensures
        r@ == spec_create_user_body(c.username@),
{
    let mut out: Vec<u8> = vec![
        123u8,
        34u8,
        117u8,
        115u8,
        101u8,
        114u8,
        110u8,
        97u8,
        109u8,
        101u8,
        34u8,
        58u8,
        34u8,
    ];
    let mut esc = escape_exec(c.username.as_slice());
    out.append(&mut esc);
    out.push(34u8);
    out.push(125u8);
    proof {
        assert(out@ =~= spec_create_user_body(c.username@));
    }
    out
}

/// Escaping leaves a sequence of plain bytes (no quote, no backslash,
/// no control byte) unchanged.
proof fn lemma_escape_plain(s: Seq<u8>)
    requires
        forall|k: int| 0 <= k < s.len() ==> 32 <= s[k] && s[k] != QUOTE && s[k] != BACKSLASH,
    ensures
        escape_bytes(s) == s,
    decreases s.len(),
{
    if s.len() == 0 {
        assert(escape_bytes(s) =~= s);
    } else {
        lemma_escape_plain(s.drop_first());
        assert(escape_byte(s[0]) =~= seq![s[0]]);
        assert(seq![s[0]] + s.drop_first() =~= s);
    }
}

/// A sequence of bytes below 0x80 can always appear in a username.
proof fn lemma_ascii_encodable(s: Seq<u8>)
    requires
        forall|k: int| 0 <= k < s.len() ==> s[k] < 128,
    ensures
        is_username_encodable(s),
    decreases s.len(),
{
    if s.len() > 0 {
        lemma_ascii_encodable(s.drop_first());
    }
}

/// Escaping leaves a prefix of plain-passthrough bytes unchanged and
/// acts on the rest alone.
proof fn lemma_escape_raw_prefix(x: Seq<u8>, k: int)
    requires
        0 <= k <= x.len(),
        forall|m: int| 0 <= m < k ==> 32 <= x[m] && x[m] != QUOTE && x[m] != BACKSLASH,
    ensures
        escape_bytes(x) == x.subrange(0, k) + escape_bytes(x.subrange(k, x.len() as int)),
    decreases k,
{
    if k == 0 {
        assert(x.subrange(0, x.len() as int) =~= x);
        assert(x.subrange(0, 0) + escape_bytes(x) =~= escape_bytes(x));
    } else {
        assert(escape_byte(x[0]) =~= seq![x[0]]);
        assert(escape_bytes(x) == escape_byte(x[0]) + escape_bytes(x.drop_first()));
        lemma_escape_raw_prefix(x.drop_first(), k - 1);
        assert(x.drop_first().subrange(0, k - 1) =~= x.subrange(1, k));
        assert(x.drop_first().subrange(k - 1, x.drop_first().len() as int) =~= x.subrange(
            k,
            x.len() as int,
        ));
        assert(seq![x[0]] + (x.subrange(1, k) + escape_bytes(x.subrange(k, x.len() as int))) =~= x.subrange(
            0,
            k,
        ) + escape_bytes(x.subrange(k, x.len() as int)));
    }
}

/// One escaped byte below 0x80 at the front of a string body parses
/// back to that byte, the rest of the body parsing as it did.
proof fn lemma_psb_step_ascii(b: u8, x1: Seq<u8>, rest: Seq<u8>)
    requires
        b < 128,
        parse_string_body(escape_bytes(x1) + seq![QUOTE] + rest) == Some((x1, rest)),
    ensures
        parse_string_body(escape_byte(b) + (escape_bytes(x1) + seq![QUOTE] + rest)) == Some(
            (seq![b] + x1, rest),
        ),
{
    let s1 = escape_bytes(x1) + seq![QUOTE] + rest;
    let s = escape_byte(b) + s1;
    if b == QUOTE {
        assert(escape_byte(b) =~= seq![BACKSLASH, QUOTE]);
        assert(s.len() >= 2);
        assert(s[0] == BACKSLASH);
        assert(s[1] == QUOTE);
        assert(s[1] != LETTER_U);
        assert(unescape_simple(QUOTE) == Some(QUOTE));
        assert(escape_step(s) == Some((seq![QUOTE], 2int)));
        assert(s.subrange(2, s.len() as int) =~= s1);
        assert(parse_string_body(s) == Some((seq![b] + x1, rest)));
    } else if b == BACKSLASH {
        assert(escape_byte(b) =~= seq![BACKSLASH, BACKSLASH]);
        assert(s.len() >= 2);
        assert(s[0] == BACKSLASH);
        assert(s[1] == BACKSLASH);
        assert(s[1] != LETTER_U);
        assert(unescape_simple(BACKSLASH) == Some(BACKSLASH));
        assert(escape_step(s) == Some((seq![BACKSLASH], 2int)));
        assert(s.subrange(2, s.len() as int) =~= s1);
        assert(parse_string_body(s) == Some((seq![b] + x1, rest)));
    } else if b < 32 {
        assert(escape_byte(b) =~= seq![
            BACKSLASH,
            LETTER_U,
            48u8,
            48u8,
            hex_digit(b / 16),
            hex_digit(b % 16),
        ]);
        assert(s.len() >= 6);
        assert(s[0] == BACKSLASH);
        assert(s[1] == LETTER_U);
        assert(s[2] == 48 && s[3] == 48);
        assert(s[4] == hex_digit(b / 16));
        assert(s[5] == hex_digit(b % 16));
        assert(hex_val(48) == Some(0u8));
        assert(b / 16 < 16 && b % 16 < 16);
        assert(hex_val(hex_digit(b / 16)) == Some(b / 16));
        assert(hex_val(hex_digit(b % 16)) == Some(b % 16));
        assert((0int) * 4096 + (0int) * 256 + ((b / 16) as int) * 16 + ((b % 16) as int)
            == b as int);
        assert(!(0xD800 <= b as int && b as int <= 0xDFFF));
        assert(utf8_encode(b as int) =~= seq![b]);
        assert(escape_step(s) == Some((utf8_encode(b as int), 6int)));
        assert(s.subrange(6, s.len() as int) =~= s1);
        assert(parse_string_body(s) == Some((seq![b] + x1, rest)));
    } else {
        assert(escape_byte(b) =~= seq![b]);
        assert(s[0] == b);
        assert(b != QUOTE && b != BACKSLASH && 32 <= b && b <= 127);
        assert(s.drop_first() =~= s1);
        assert(parse_string_body(s) == Some((seq![b] + x1, rest)));
    }
}

/// One raw well-formed UTF-8 sequence at the front of a string body
/// parses back unchanged, the rest of the body parsing as it did.
proof fn lemma_psb_step_multi(head: Seq<u8>, x1: Seq<u8>, rest: Seq<u8>)
    requires
        2 <= head.len() <= 4,
        utf8_len(head[0]) == head.len() as int,
        utf8_follow_ok(head),
        forall|m: int| 0 <= m < head.len() ==> 128 <= head[m],
        parse_string_body(escape_bytes(x1) + seq![QUOTE] + rest) == Some((x1, rest)),
    ensures
        parse_string_body(head + (escape_bytes(x1) + seq![QUOTE] + rest)) == Some(
            (head + x1, rest),
        ),
{
    let s1 = escape_bytes(x1) + seq![QUOTE] + rest;
    let s = head + s1;
    let k = head.len() as int;
    assert(s[0] == head[0]);
    assert(s[1] == head[1]);
    if k >= 3 {
        assert(s[2] == head[2]);
    }
    if k >= 4 {
        assert(s[3] == head[3]);
    }
    assert(128 <= s[0]);
    assert(s[0] != QUOTE && s[0] != BACKSLASH && s[0] >= 32 && !(s[0] <= 127));
    assert(utf8_follow_ok(s));
    assert(utf8_len(s[0]) == k);
    assert(s.len() >= k);
    assert(utf8_step(s) == Some(k));
    assert(s.subrange(k, s.len() as int) =~= s1);
    assert(s.subrange(0, k) =~= head);
    assert(parse_string_body(s) == Some((head + x1, rest)));
}

/// Parsing undoes escaping: a string body written by `escape_bytes` for
/// an encodable username, closed by a quote and followed by anything,
/// parses back to exactly the original bytes with that remainder.
#[verifier::spinoff_prover]
#[verifier::rlimit(100)]
proof fn lemma_psb_unescape(x: Seq<u8>, rest: Seq<u8>)
    requires
        is_username_encodable(x),
    ensures
        parse_string_body(escape_bytes(x) + seq![QUOTE] + rest) == Some((x, rest)),
    decreases x.len(),
{
    let s = escape_bytes(x) + seq![QUOTE] + rest;
    if x.len() == 0 {
        assert(escape_bytes(x) == Seq::<u8>::empty());
        assert(s[0] == QUOTE);
        assert(s.drop_first() =~= rest);
        assert(x =~= Seq::<u8>::empty());
    } else if x[0] < 128 {
        let b = x[0];
        let x1 = x.drop_first();
        assert(escape_bytes(x) == escape_byte(b) + escape_bytes(x1));
        lemma_psb_unescape(x1, rest);
        lemma_psb_step_ascii(b, x1, rest);
        assert(s =~= escape_byte(b) + (escape_bytes(x1) + seq![QUOTE] + rest));
        assert(seq![b] + x1 =~= x);
    } else {
        let b = x[0];
        let k = utf8_len(b);
        assert(utf8_step(x) == Some(k));
        assert(2 <= k <= 4 && x.len() >= k && utf8_follow_ok(x));
        let head = x.subrange(0, k);
        let xk = x.subrange(k, x.len() as int);
        assert(is_username_encodable(xk));
        assert(128 <= x[1] && x[1] <= 191);
        if k >= 3 {
            assert(128 <= x[2] && x[2] <= 191);
        }
        if k >= 4 {
            assert(128 <= x[3] && x[3] <= 191);
        }
        assert(forall|m: int| 0 <= m < k ==> 32 <= x[m] && x[m] != QUOTE && x[m] != BACKSLASH);
        lemma_escape_raw_prefix(x, k);
        assert(head[0] == b);
        assert(head[1] == x[1]);
        if k >= 3 {
            assert(head[2] == x[2]);
        }
        if k >= 4 {
            assert(head[3] == x[3]);
        }
        assert(utf8_len(head[0]) == head.len() as int);
        assert(utf8_follow_ok(head));
        assert(forall|m: int| 0 <= m < head.len() ==> 128 <= head[m]);
        lemma_psb_unescape(xk, rest);
        lemma_psb_step_multi(head, xk, rest);
        assert(s =~= head + (escape_bytes(xk) + seq![QUOTE] + rest));
        assert(head + xk =~= x);
    }
}

/// Round trip of the request format: serializing an encodable username
/// in the canonical creation body and parsing it back yields exactly
/// that username.
#[verifier::rlimit(100)]
pub proof fn lemma_create_user_round_trip(name: Seq<u8>)
    requires
        is_username_encodable(name),
    ensures
        spec_parse_create_user(spec_create_user_body(name)) == Some(name),
{
    let body = spec_create_user_body(name);
    let key = username_key();
    assert(forall|k: int| 0 <= k < key.len() ==> 32 <= key[k] < 128 && key[k] != QUOTE && key[k]
        != BACKSLASH);
    lemma_escape_plain(key);
    lemma_ascii_encodable(key);
    assert(body[0] == 123);
    assert(!is_ws(123u8));
    assert(trim_ws(body) == body);
    let s2 = body.drop_first();
    assert(expect_byte(body, LBRACE) == Some(s2));
    assert(s2[0] == 34);
    assert(!is_ws(34u8));
    assert(trim_ws(s2) == s2);
    let f0 = (body.len() + 1) as nat;
    assert(f0 > 0);
    assert(s2.len() > 0 && s2[0] == QUOTE && s2[0] != RBRACE);
    let s4 = s2.drop_first();
    let rest1 = seq![58u8, 34u8] + escape_bytes(name) + seq![34u8, 125u8];
    assert(s4 =~= escape_bytes(key) + seq![QUOTE] + rest1);
    lemma_psb_unescape(key, rest1);
    assert(parse_string_body(s4) == Some((key, rest1)));
    assert(rest1[0] == 58);
    assert(!is_ws(58u8));
    assert(trim_ws(rest1) == rest1);
    let s7 = rest1.drop_first();
    assert(expect_byte(rest1, COLON) == Some(s7));
    assert(s7[0] == 34);
    assert(!is_ws(34u8));
    assert(trim_ws(s7) == s7);
    assert(s7.len() > 0 && s7[0] == QUOTE);
    let s9 = s7.drop_first();
    assert(s9 =~= escape_bytes(name) + seq![QUOTE] + seq![125u8]);
    lemma_psb_unescape(name, seq![125u8]);
    assert(parse_string_body(s9) == Some((name, seq![125u8])));
    assert(!is_ws(125u8));
    assert(trim_ws(seq![125u8]) == seq![125u8]);
    assert(seq![125u8][0] == RBRACE && seq![125u8][0] != 44);
    let s12 = seq![125u8].drop_first();
    assert(s12.len() == 0);
    assert(parse_user_members(s2, None, f0, true) == Some((Some(name), s12)));
    assert(trim_ws(s12).len() == 0);
}

} // verus!
