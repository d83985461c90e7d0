//! Parsing of the project build configuration text.
//!
//! The configuration is line-oriented: each entry is a header line whose
//! trimmed text starts with `config` and names the key after the first
//! space, followed by one line of prompt text, followed by a line whose
//! trimmed text holds the value after its first space, quotes stripped.
//! Keys are lowercased (ASCII); when a key repeats, the last entry wins.
//! `parse` yields the five connection settings, or nothing when an entry
//! is malformed or a setting is missing — it never panics.

use vstd::prelude::*;
use vstd::string::StringSliceAdditionalSpecFns;
use crate::command::first_index;
use crate::command::lemma_first_index;
use crate::command::lemma_first_index_min;

verus! {

/// True for the ASCII whitespace bytes that line trimming removes.
pub open spec fn is_ws(b: u8) -> bool {
    b == 32 || b == 9 || b == 10 || b == 11 || b == 12 || b == 13
}

/// `l` without leading whitespace.
pub open spec fn trim_start_spec(l: Seq<u8>) -> Seq<u8>
    decreases l.len(),
{
    if l.len() > 0 && is_ws(l.first()) {
        trim_start_spec(l.drop_first())
    } else {
        l
    }
}

/// `l` without trailing whitespace.
pub open spec fn trim_end_spec(l: Seq<u8>) -> Seq<u8>
    decreases l.len(),
{
    if l.len() > 0 && is_ws(l.last()) {
        trim_end_spec(l.drop_last())
    } else {
        l
    }
}

/// `l` without leading or trailing whitespace.
pub open spec fn trim_spec(l: Seq<u8>) -> Seq<u8> {
    trim_end_spec(trim_start_spec(l))
}

/// `l` without leading quote bytes.
pub open spec fn unquote_start(l: Seq<u8>) -> Seq<u8>
    decreases l.len(),
{
    if l.len() > 0 && l.first() == 34 {
        unquote_start(l.drop_first())
    } else {
        l
    }
}

/// `l` without trailing quote bytes.
pub open spec fn unquote_end(l: Seq<u8>) -> Seq<u8>
    decreases l.len(),
{
    if l.len() > 0 && l.last() == 34 {
        unquote_end(l.drop_last())
    } else {
        l
    }
}

/// `l` with every leading and trailing `"` removed.
pub open spec fn unquote_spec(l: Seq<u8>) -> Seq<u8> {
    unquote_end(unquote_start(l))
}

/// `l` without one trailing carriage return, as line splitting leaves it.
pub open spec fn strip_cr(l: Seq<u8>) -> Seq<u8> {
    if l.len() > 0 && l.last() == 13 {
        l.drop_last()
    } else {
        l
    }
}

/// The lines of `s`: split at each newline, one trailing carriage return
/// removed per line, no final empty line for a trailing newline.
pub open spec fn split_lines(s: Seq<u8>) -> Seq<Seq<u8>>
    decreases s.len(),
{
    if s.len() == 0 {
        seq![]
    } else {
        let i = first_index(s, 10);
        if 0 <= i && i < s.len() {
            seq![strip_cr(s.subrange(0, i))] + split_lines(s.subrange(i + 1, s.len() as int))
        } else {
            seq![strip_cr(s)]
        }
    }
}

/// The `config` literal that begins an entry header.
pub open spec fn config_kw() -> Seq<u8> {
    seq![99u8, 111u8, 110u8, 102u8, 105u8, 103u8]
}

/// True when the line's trimmed text begins with `config`.
pub open spec fn is_header(l: Seq<u8>) -> bool {
    let t = trim_spec(l);
    t.len() >= 6 && t.subrange(0, 6) == config_kw()
}

/// True when the line holds a space to split a key or value after.
pub open spec fn has_space(l: Seq<u8>) -> bool {
    first_index(l, 32) >= 0
}

/// Everything after the first space of `l`.
pub open spec fn after_space(l: Seq<u8>) -> Seq<u8>
    recommends
        has_space(l),
{
    l.subrange(first_index(l, 32) + 1, l.len() as int)
}

/// `s` with ASCII capitals lowered.
pub open spec fn ascii_lower(s: Seq<u8>) -> Seq<u8> {
    Seq::new(s.len(), |i: int| lower_byte(s[i]))
}

/// The lowercased form of one byte.
pub open spec fn lower_byte(b: u8) -> u8 {
    if 65 <= b && b <= 90 {
        (b + 32) as u8
    } else {
        b
    }
}

/// The key an entry header names: the lowercased text after `config `.
pub open spec fn key_of(header: Seq<u8>) -> Seq<u8>
    recommends
        has_space(header),
{
    ascii_lower(after_space(header))
}

/// The value a value line carries: the unquoted text after the first
/// space of its trimmed form.
pub open spec fn value_of(l: Seq<u8>) -> Seq<u8>
    recommends
        has_space(trim_spec(l)),
{
    unquote_spec(after_space(trim_spec(l)))
}

/// The key/value bindings of the configuration, in file order, starting
/// at line `i`: a header consumes itself, the prompt line and the value
/// line; `None` when an entry is malformed, as when a header lacks its
/// key, its value line, or the value line its value.
pub open spec fn scan_bindings(lines: Seq<Seq<u8>>, i: int) -> Option<Seq<(Seq<u8>, Seq<u8>)>>
    decreases lines.len() - i,
    when i >= 0
{
    if i >= lines.len() {
        Some(seq![])
    } else if is_header(lines[i]) {
        if has_space(lines[i]) && i + 2 < lines.len() && has_space(trim_spec(lines[i + 2])) {
            match scan_bindings(lines, i + 3) {
                None => None,
                Some(t) => Some(seq![(key_of(lines[i]), value_of(lines[i + 2]))] + t),
            }
        } else {
            None
        }
    } else {
        scan_bindings(lines, i + 1)
    }
}

/// The value bound to `key`, the last binding winning.
pub open spec fn lookup(bs: Seq<(Seq<u8>, Seq<u8>)>, key: Seq<u8>) -> Option<Seq<u8>>
    decreases bs.len(),
{
    if bs.len() == 0 {
        None
    } else {
        match lookup(bs.drop_first(), key) {
            Some(v) => Some(v),
            None => if bs.first().0 == key {
                Some(bs.first().1)
            } else {
                None
            },
        }
    }
}

/// Splitting a binding list splits its lookup: the later part wins.
proof fn lemma_lookup_concat(a: Seq<(Seq<u8>, Seq<u8>)>, b: Seq<(Seq<u8>, Seq<u8>)>, key: Seq<u8>)
    ensures
        lookup(a + b, key) == match lookup(b, key) {
            Some(v) => Some(v),
            None => lookup(a, key),
        },
    decreases a.len(),
{
    if a.len() == 0 {
        assert(a + b =~= b);
    } else {
        assert((a + b).drop_first() =~= a.drop_first() + b);
        lemma_lookup_concat(a.drop_first(), b, key);
    }
}

/// The key naming the wireless network.
pub open spec fn key_wifi_ssid() -> Seq<u8> {
    seq![119u8, 105u8, 102u8, 105u8, 95u8, 115u8, 115u8, 105u8, 100u8]
}

/// The key naming the wireless passphrase.
pub open spec fn key_wifi_password() -> Seq<u8> {
    seq![119u8, 105u8, 102u8, 105u8, 95u8, 112u8, 97u8, 115u8, 115u8, 119u8, 111u8, 114u8, 100u8]
}

/// The key naming the broker address.
pub open spec fn key_mqtt_broker() -> Seq<u8> {
    seq![109u8, 113u8, 116u8, 116u8, 95u8, 98u8, 114u8, 111u8, 107u8, 101u8, 114u8]
}

/// The key naming the inbound command topic.
pub open spec fn key_mqtt_command_topic() -> Seq<u8> {
    seq![
        109u8,
        113u8,
        116u8,
        116u8,
        95u8,
        99u8,
        111u8,
        109u8,
        109u8,
        97u8,
        110u8,
        100u8,
        95u8,
        116u8,
        111u8,
        112u8,
        105u8,
        99u8,
    ]
}

/// The key naming the outbound response topic.
pub open spec fn key_mqtt_response_topic() -> Seq<u8> {
    seq![
        109u8,
        113u8,
        116u8,
        116u8,
        95u8,
        114u8,
        101u8,
        115u8,
        112u8,
        111u8,
        110u8,
        115u8,
        101u8,
        95u8,
        116u8,
        111u8,
        112u8,
        105u8,
        99u8,
    ]
}

/// The five connection settings, as the raw bytes of their values.
pub struct ProjBuild {
    pub wifi_ssid: Vec<u8>,
    pub wifi_password: Vec<u8>,
    pub mqtt_broker: Vec<u8>,
    pub mqtt_command_topic: Vec<u8>,
    pub mqtt_response_topic: Vec<u8>,
}

/// What `parse` yields for input bytes `s`: the five settings looked up
/// in the scanned bindings, or nothing when the scan fails or one is
/// missing.
pub open spec fn parse_ok(s: Seq<u8>, r: Option<ProjBuild>) -> bool {
    match scan_bindings(split_lines(s), 0) {
        None => r is None,
        Some(bs) => {
            if lookup(bs, key_wifi_ssid()) is Some && lookup(bs, key_wifi_password()) is Some
                && lookup(bs, key_mqtt_broker()) is Some && lookup(
                bs,
                key_mqtt_command_topic(),
            ) is Some && lookup(bs, key_mqtt_response_topic()) is Some {
                match r {
                    Some(c) => {
                        &&& c.wifi_ssid@ == lookup(bs, key_wifi_ssid())->Some_0
                        &&& c.wifi_password@ == lookup(bs, key_wifi_password())->Some_0
                        &&& c.mqtt_broker@ == lookup(bs, key_mqtt_broker())->Some_0
                        &&& c.mqtt_command_topic@ == lookup(bs, key_mqtt_command_topic())->Some_0
                        &&& c.mqtt_response_topic@ == lookup(bs, key_mqtt_response_topic())->Some_0
                    },
                    None => false,
                }
            } else {
                r is None
            }
        },
    }
}

/// An option's view: the bytes it holds, if any.
pub open spec fn val_view(o: Option<Vec<u8>>) -> Option<Seq<u8>> {
    match o {
        Some(v) => Some(v@),
        None => None,
    }
}

/// The first option when present, the second otherwise.
pub open spec fn prefer(a: Option<Seq<u8>>, b: Option<Seq<u8>>) -> Option<Seq<u8>> {
    match a {
        Some(v) => Some(v),
        None => b,
    }
}

/// True for the ASCII whitespace bytes.
fn is_ws_ex(b: u8) -> (r: bool)
    ensures
        r == is_ws(b),
{
    b == 32 || b == 9 || b == 10 || b == 11 || b == 12 || b == 13
}

/// Copies `s[lo..hi]` out.
fn copy_range(s: &[u8], lo: usize, hi: usize) -> (r: Vec<u8>)
    requires
        lo <= hi <= s@.len(),
    ensures
        r@ == s@.subrange(lo as int, hi as int),
{
    let mut r: Vec<u8> = Vec::new();
    let mut k = lo;
    while k < hi
        invariant
            lo <= k <= hi <= s@.len(),
            r@.len() == k - lo,
            forall|j: int| 0 <= j < k - lo ==> #[trigger] r@[j] == s@[lo + j],
        decreases hi - k,
    {
        r.push(s[k]);
        k += 1;
    }
    proof {
        assert(r@ =~= s@.subrange(lo as int, hi as int));
    }
    r
}

/// Finds the first occurrence of `b` in `s[lo..hi]`.
fn find_from_range(s: &[u8], lo: usize, hi: usize, b: u8) -> (r: Option<usize>)
    requires
        lo <= hi <= s@.len(),
    ensures
        ({
            let t = s@.subrange(lo as int, hi as int);
            match r {
                Some(q) => lo <= q < hi && s@[q as int] == b && first_index(t, b) == q - lo,
                None => first_index(t, b) < 0,
            }
        }),
{
    let ghost t = s@.subrange(lo as int, hi as int);
    let mut k = lo;
    while k < hi
        invariant
            lo <= k <= hi <= s@.len(),
            forall|j: int| lo <= j < k ==> #[trigger] s@[j] != b,
        decreases hi - k,
    {
        if s[k] == b {
            proof {
                let u = s@.subrange(lo as int, hi as int);
                assert forall|j: int| 0 <= j < k - lo implies #[trigger] u[j] != b by {
                    assert(u[j] == s@[lo + j]);
                }
                lemma_first_index_min(u, b, k - lo);
            }
            return Some(k);
        }
        k += 1;
    }
    proof {
        lemma_first_index(t, b);
        if first_index(t, b) >= 0 {
            assert(s@[lo + first_index(t, b)] == b);
        }
    }
    None
}

/// The bounds of `s[lo..hi]` with surrounding whitespace removed.
fn trim_bounds(s: &[u8], lo: usize, hi: usize) -> (r: (usize, usize))
    requires
        lo <= hi <= s@.len(),
    ensures
        lo <= r.0 <= r.1 <= hi,
        trim_spec(s@.subrange(lo as int, hi as int)) == s@.subrange(r.0 as int, r.1 as int),
{
    let mut a = lo;
    while a < hi && is_ws_ex(s[a])
        invariant
            lo <= a <= hi <= s@.len(),
            trim_start_spec(s@.subrange(lo as int, hi as int)) == trim_start_spec(
                s@.subrange(a as int, hi as int),
            ),
        decreases hi - a,
    {
        proof {
            assert(s@.subrange(a as int, hi as int).drop_first() =~= s@.subrange(
                a as int + 1,
                hi as int,
            ));
        }
        a += 1;
    }
    proof {
        assert(trim_start_spec(s@.subrange(lo as int, hi as int)) == s@.subrange(
            a as int,
            hi as int,
        ));
    }
    let mut z = hi;
    while z > a && is_ws_ex(s[z - 1])
        invariant
            a <= z <= hi <= s@.len(),
            trim_end_spec(s@.subrange(a as int, hi as int)) == trim_end_spec(
                s@.subrange(a as int, z as int),
            ),
        decreases z,
    {
        proof {
            assert(s@.subrange(a as int, z as int).drop_last() =~= s@.subrange(
                a as int,
                z as int - 1,
            ));
        }
        z -= 1;
    }
    (a, z)
}

/// The bounds of `s[lo..hi]` with surrounding quote bytes removed.
fn unquote_bounds(s: &[u8], lo: usize, hi: usize) -> (r: (usize, usize))
    requires
        lo <= hi <= s@.len(),
    ensures
        lo <= r.0 <= r.1 <= hi,
        unquote_spec(s@.subrange(lo as int, hi as int)) == s@.subrange(r.0 as int, r.1 as int),
{
    let mut a = lo;
    while a < hi && s[a] == 34
        invariant
            lo <= a <= hi <= s@.len(),
            unquote_start(s@.subrange(lo as int, hi as int)) == unquote_start(
                s@.subrange(a as int, hi as int),
            ),
        decreases hi - a,
    {
        proof {
            assert(s@.subrange(a as int, hi as int).drop_first() =~= s@.subrange(
                a as int + 1,
                hi as int,
            ));
        }
        a += 1;
    }
    proof {
        assert(unquote_start(s@.subrange(lo as int, hi as int)) == s@.subrange(
            a as int,
            hi as int,
        ));
    }
    let mut z = hi;
    while z > a && s[z - 1] == 34
        invariant
            a <= z <= hi <= s@.len(),
            unquote_end(s@.subrange(a as int, hi as int)) == unquote_end(
                s@.subrange(a as int, z as int),
            ),
        decreases z,
    {
        proof {
            assert(s@.subrange(a as int, z as int).drop_last() =~= s@.subrange(
                a as int,
                z as int - 1,
            ));
        }
        z -= 1;
    }
    (a, z)
}

/// True when the line's trimmed text begins with `config`.
fn is_header_ex(l: &[u8]) -> (r: bool)
    ensures
        r == is_header(l@),
{
    let n = l.len();
    proof {
        assert(l@.subrange(0, n as int) =~= l@);
    }
    let (lo, hi) = trim_bounds(l, 0, n);
    let ghost t = trim_spec(l@);
    if hi - lo < 6 {
        return false;
    }
    proof {
        assert(forall|j: int| 0 <= j < t.len() ==> t[j] == l@[lo + j]);
    }
    let r = l[lo] == 99 && l[lo + 1] == 111 && l[lo + 2] == 110 && l[lo + 3] == 102 && l[lo + 4]
        == 105 && l[lo + 5] == 103;
    proof {
        if r {
            assert(t.subrange(0, 6) =~= config_kw());
        } else {
            assert(t.subrange(0, 6) != config_kw());
        }
    }
    r
}

/// Lowercases `s[lo..hi]` into a fresh vector.
fn to_lower_vec(s: &[u8], lo: usize, hi: usize) -> (r: Vec<u8>)
    requires
        lo <= hi <= s@.len(),
    ensures
        r@ == ascii_lower(s@.subrange(lo as int, hi as int)),
{
    let mut r: Vec<u8> = Vec::new();
    let mut k = lo;
    while k < hi
        invariant
            lo <= k <= hi <= s@.len(),
            r@.len() == k - lo,
            forall|j: int| 0 <= j < k - lo ==> #[trigger] r@[j] == lower_byte(s@[lo + j]),
        decreases hi - k,
    {
        let b = s[k];
        let lb = if b >= 65 && b <= 90 {
            b + 32
        } else {
            b
        };
        r.push(lb);
        k += 1;
    }
    proof {
        assert(r@ =~= ascii_lower(s@.subrange(lo as int, hi as int)));
    }
    r
}

/// Whether two byte vectors hold the same bytes.
fn bytes_eq(a: &Vec<u8>, b: &Vec<u8>) -> (r: bool)
    ensures
        r == (a@ == b@),
{
    if a.len() != b.len() {
        return false;
    }
    let mut k: usize = 0;
    while k < a.len()
        invariant
            k <= a@.len(),
            a@.len() == b@.len(),
            forall|j: int| 0 <= j < k ==> #[trigger] a@[j] == b@[j],
        decreases a@.len() - k,
    {
        if a[k] != b[k] {
            return false;
        }
        k += 1;
    }
    proof {
        assert(a@ =~= b@);
    }
    true
}

/// Splits the input into its lines.
fn split_into_lines(s: &[u8]) -> (r: Vec<Vec<u8>>)
    ensures
        r.deep_view() == split_lines(s@),
{
    let n = s.len();
    let mut out: Vec<Vec<u8>> = Vec::new();
    let mut p: usize = 0;
    proof {
        assert(s@.subrange(0, n as int) =~= s@);
        assert(out.deep_view() + split_lines(s@) =~~= split_lines(s@));
    }
    while p < n
        invariant
            p <= n,
            n == s@.len(),
            split_lines(s@) == out.deep_view() + split_lines(s@.subrange(p as int, n as int)),
        decreases n - p,
    {
        let ghost rest = s@.subrange(p as int, n as int);
        let ghost dv0 = out.deep_view();
        let qopt = find_from_range(s, p, n, 10);
        let line_end: usize = match qopt {
            Some(q) => q,
            None => n,
        };
        let next_p: usize = match qopt {
            Some(q) => q + 1,
            None => n,
        };
        let strip_end: usize = if line_end > p && s[line_end - 1] == 13 {
            line_end - 1
        } else {
            line_end
        };
        let line = copy_range(s, p, strip_end);
        proof {
            assert(rest.subrange(0, line_end - p) =~= s@.subrange(p as int, line_end as int));
            if line_end > p && s@[line_end - 1] == 13 {
                assert(s@.subrange(p as int, line_end as int).drop_last() =~= s@.subrange(
                    p as int,
                    strip_end as int,
                ));
            }
            assert(line@ == strip_cr(s@.subrange(p as int, line_end as int)));
        }
        out.push(line);
        proof {
            assert(line.deep_view() =~= line@);
            assert(out.deep_view() =~~= dv0.push(line@));
            if qopt is Some {
                assert(rest.subrange(line_end - p + 1, rest.len() as int) =~= s@.subrange(
                    next_p as int,
                    n as int,
                ));
                assert(split_lines(rest) == seq![line@] + split_lines(
                    s@.subrange(next_p as int, n as int),
                ));
            } else {
                assert(first_index(rest, 10) < 0);
                assert(rest =~= s@.subrange(p as int, line_end as int));
                assert(split_lines(rest) == seq![line@]);
                assert(s@.subrange(n as int, n as int) =~= Seq::<u8>::empty());
                assert(split_lines(s@.subrange(n as int, n as int)) =~= Seq::<Seq<u8>>::empty());
            }
            assert(dv0 + split_lines(rest) =~~= out.deep_view() + split_lines(
                s@.subrange(next_p as int, n as int),
            ));
        }
        p = next_p;
    }
    proof {
        assert(s@.subrange(p as int, n as int) =~= Seq::<u8>::empty());
        assert(out.deep_view() + split_lines(Seq::<u8>::empty()) =~~= out.deep_view());
    }
    out
}

/// A one-binding list binds only its own key.
proof fn lemma_lookup_single(k: Seq<u8>, v: Seq<u8>, key: Seq<u8>)
    ensures
        lookup(seq![(k, v)], key) == (if k == key {
            Some(v)
        } else {
            None::<Seq<u8>>
        }),
{
    let single = seq![(k, v)];
    assert(single.drop_first() =~= Seq::<(Seq<u8>, Seq<u8>)>::empty());
    assert(lookup(single.drop_first(), key) is None);
    assert(single.first() == (k, v));
}

impl ProjBuild {
    /// Decodes the configuration text into the five connection settings:
    /// the last binding of each key wins, and the result is `None` when
    /// an entry is malformed or one of the five settings never appears.
    pub fn parse(input: &str) -> (r: Option<ProjBuild>)
        ensures
            parse_ok(input.spec_bytes(), r),
    {
        let bytes: &[u8] = input.as_bytes();
        let lines = split_into_lines(bytes);
        let ghost ls = split_lines(input.spec_bytes());
        let k_ssid: Vec<u8> = vec![119u8, 105u8, 102u8, 105u8, 95u8, 115u8, 115u8, 105u8, 100u8];
        let k_pass: Vec<u8> = vec![
            119u8,
            105u8,
            102u8,
            105u8,
            95u8,
            112u8,
            97u8,
            115u8,
            115u8,
            119u8,
            111u8,
            114u8,
            100u8,
        ];
        let k_broker: Vec<u8> = vec![
            109u8,
            113u8,
            116u8,
            116u8,
            95u8,
            98u8,
            114u8,
            111u8,
            107u8,
            101u8,
            114u8,
        ];
        let k_cmd: Vec<u8> = vec![
            109u8,
            113u8,
            116u8,
            116u8,
            95u8,
            99u8,
            111u8,
            109u8,
            109u8,
            97u8,
            110u8,
            100u8,
            95u8,
            116u8,
            111u8,
            112u8,
            105u8,
            99u8,
        ];
        let k_resp: Vec<u8> = vec![
            109u8,
            113u8,
            116u8,
            116u8,
            95u8,
            114u8,
            101u8,
            115u8,
            112u8,
            111u8,
            110u8,
            115u8,
            101u8,
            95u8,
            116u8,
            111u8,
            112u8,
            105u8,
            99u8,
        ];
        proof {
            assert(k_ssid@ =~= key_wifi_ssid());
            assert(k_pass@ =~= key_wifi_password());
            assert(k_broker@ =~= key_mqtt_broker());
            assert(k_cmd@ =~= key_mqtt_command_topic());
            assert(k_resp@ =~= key_mqtt_response_topic());
        }
        let mut ssid: Option<Vec<u8>> = None;
        let mut password: Option<Vec<u8>> = None;
        let mut broker: Option<Vec<u8>> = None;
        let mut cmd_topic: Option<Vec<u8>> = None;
        let mut resp_topic: Option<Vec<u8>> = None;
        let n = lines.len();
        let mut i: usize = 0;
        while i < n
            invariant
                n == ls.len(),
                i <= n + 2,
                ls == lines.deep_view(),
                ls == split_lines(input.spec_bytes()),
                k_ssid@ == key_wifi_ssid(),
                k_pass@ == key_wifi_password(),
                k_broker@ == key_mqtt_broker(),
                k_cmd@ == key_mqtt_command_topic(),
                k_resp@ == key_mqtt_response_topic(),
                (scan_bindings(ls, 0) is Some) == (scan_bindings(ls, i as int) is Some),
                scan_bindings(ls, 0) matches Some(bs) ==> (scan_bindings(ls, i as int) matches Some(
                    t,
                ) && {
                    &&& lookup(bs, key_wifi_ssid()) == prefer(
                        lookup(t, key_wifi_ssid()),
                        val_view(ssid),
                    )
                    &&& lookup(bs, key_wifi_password()) == prefer(
                        lookup(t, key_wifi_password()),
                        val_view(password),
                    )
                    &&& lookup(bs, key_mqtt_broker()) == prefer(
                        lookup(t, key_mqtt_broker()),
                        val_view(broker),
                    )
                    &&& lookup(bs, key_mqtt_command_topic()) == prefer(
                        lookup(t, key_mqtt_command_topic()),
                        val_view(cmd_topic),
                    )
                    &&& lookup(bs, key_mqtt_response_topic()) == prefer(
                        lookup(t, key_mqtt_response_topic()),
                        val_view(resp_topic),
                    )
                }),
            decreases n - i,
        {
            proof {
                assert(lines.deep_view()[i as int] == lines@[i as int].deep_view());
                assert(lines@[i as int].deep_view() =~= lines@[i as int]@);
            }
            let header = is_header_ex(lines[i].as_slice());
            if !header {
                proof {
                    assert(scan_bindings(ls, i as int) == scan_bindings(ls, i as int + 1));
                }
                i += 1;
            } else {
                let sl = lines[i].as_slice();
                proof {
                    assert(sl@.subrange(0, sl@.len() as int) =~= sl@);
                }
                let spo = find_from_range(sl, 0, sl.len(), 32);
                match spo {
                    None => {
                        proof {
                            assert(!has_space(ls[i as int]));
                            assert(scan_bindings(ls, i as int) is None);
                        }
                        return None;
                    },
                    Some(si) => {
                        if n - i <= 2 {
                            proof {
                                assert(scan_bindings(ls, i as int) is None);
                            }
                            return None;
                        }
                        proof {
                            assert(lines.deep_view()[i as int + 2] == lines@[i as int
                                + 2].deep_view());
                            assert(lines@[i as int + 2].deep_view() =~= lines@[i as int + 2]@);
                        }
                        let vsl = lines[i + 2].as_slice();
                        proof {
                            assert(vsl@.subrange(0, vsl@.len() as int) =~= vsl@);
                        }
                        let (tlo, thi) = trim_bounds(vsl, 0, vsl.len());
                        let vspo = find_from_range(vsl, tlo, thi, 32);
                        match vspo {
                            None => {
                                proof {
                                    assert(!has_space(trim_spec(ls[i as int + 2])));
                                    assert(scan_bindings(ls, i as int) is None);
                                }
                                return None;
                            },
                            Some(vsi) => {
                                let (qlo, qhi) = unquote_bounds(vsl, vsi + 1, thi);
                                let value = copy_range(vsl, qlo, qhi);
                                let key = to_lower_vec(sl, si + 1, sl.len());
                                let ghost key_s = key_of(ls[i as int]);
                                let ghost val_s = value_of(ls[i as int + 2]);
                                proof {
                                    assert(sl@.subrange(si as int + 1, sl@.len() as int)
                                        =~= after_space(ls[i as int]));
                                    assert(key@ == key_s);
                                    let t2 = trim_spec(ls[i as int + 2]);
                                    assert(t2 == vsl@.subrange(tlo as int, thi as int));
                                    assert(t2.subrange(
                                        vsi - tlo + 1,
                                        t2.len() as int,
                                    ) =~= vsl@.subrange(vsi as int + 1, thi as int));
                                    assert(after_space(t2) == vsl@.subrange(
                                        vsi as int + 1,
                                        thi as int,
                                    ));
                                    assert(value@ == val_s);
                                    if scan_bindings(ls, i as int + 3) is Some {
                                        let t3 = scan_bindings(ls, i as int + 3)->Some_0;
                                        let single = seq![(key_s, val_s)];
                                        assert(scan_bindings(ls, i as int) == Some(single + t3));
                                        lemma_lookup_concat(single, t3, key_wifi_ssid());
                                        lemma_lookup_concat(single, t3, key_wifi_password());
                                        lemma_lookup_concat(single, t3, key_mqtt_broker());
                                        lemma_lookup_concat(single, t3, key_mqtt_command_topic());
                                        lemma_lookup_concat(single, t3, key_mqtt_response_topic());
                                        lemma_lookup_single(key_s, val_s, key_wifi_ssid());
                                        lemma_lookup_single(key_s, val_s, key_wifi_password());
                                        lemma_lookup_single(key_s, val_s, key_mqtt_broker());
                                        lemma_lookup_single(key_s, val_s, key_mqtt_command_topic());
                                        lemma_lookup_single(
                                            key_s,
                                            val_s,
                                            key_mqtt_response_topic(),
                                        );
                                    }
                                }
                                if bytes_eq(&key, &k_ssid) {
                                    ssid = Some(value);
                                } else if bytes_eq(&key, &k_pass) {
                                    password = Some(value);
                                } else if bytes_eq(&key, &k_broker) {
                                    broker = Some(value);
                                } else if bytes_eq(&key, &k_cmd) {
                                    cmd_topic = Some(value);
                                } else if bytes_eq(&key, &k_resp) {
                                    resp_topic = Some(value);
                                }
                                i += 3;
                            },
                        }
                    },
                }
            }
        }
        proof {
            assert(scan_bindings(ls, i as int) == Some(Seq::<(Seq<u8>, Seq<u8>)>::empty()));
        }
        if ssid.is_some() && password.is_some() && broker.is_some() && cmd_topic.is_some()
            && resp_topic.is_some() {
            Some(
                ProjBuild {
                    wifi_ssid: ssid.unwrap(),
                    wifi_password: password.unwrap(),
                    mqtt_broker: broker.unwrap(),
                    mqtt_command_topic: cmd_topic.unwrap(),
                    mqtt_response_topic: resp_topic.unwrap(),
                },
            )
        } else {
            None
        }
    }
}

} // verus!
