use vstd::prelude::*;

verus! {

/// Trace identity carried across a process boundary.
#[derive(Clone, Copy, Debug, PartialEq, Eq, Structural)]
pub struct TraceContext {
    pub trace_id: u128,
    pub span_id: u64,
    pub sampled: bool,
}

/// Name of the header that carries the trace context.
pub const TRACEPARENT: &'static str = "traceparent";

pub open spec fn is_hex_digit(c: char) -> bool {
    ('0' <= c && c <= '9') || ('a' <= c && c <= 'f')
}

pub open spec fn hex_digit_value(c: char) -> nat {
    if '0' <= c && c <= '9' {
        (c as nat - '0' as nat) as nat
    } else {
        (c as nat - 'a' as nat + 10) as nat
    }
}

pub open spec fn hex_char(d: nat) -> char {
    if d < 10 {
        (d + '0' as nat) as char
    } else {
        (d - 10 + 'a' as nat) as char
    }
}

pub open spec fn all_hex(s: Seq<char>) -> bool {
    forall|i: int| 0 <= i < s.len() ==> is_hex_digit(#[trigger] s[i])
}

/// Base-16 value of a string of hex digits, most significant first.
pub open spec fn hex_value(s: Seq<char>) -> nat
    decreases s.len(),
{
    if s.len() == 0 {
        0
    } else {
        hex_value(s.drop_last()) * 16 + hex_digit_value(s.last())
    }
}

/// The `n` lowest hex digits of `v`, most significant first.
pub open spec fn hex_fixed(v: nat, n: nat) -> Seq<char>
    decreases n,
{
    if n == 0 {
        seq![]
    } else {
        hex_fixed(v / 16, (n - 1) as nat).push(hex_char(v % 16))
    }
}

pub open spec fn pow16(n: nat) -> nat
    decreases n,
{
    if n == 0 {
        1
    } else {
        16 * pow16((n - 1) as nat)
    }
}

/// A well-formed traceparent value: `vv-<32 hex>-<16 hex>-<2 hex>`, version not `ff`,
/// ids not all zero; version `00` ends there, a later version may carry further
/// fields after another `-`.
pub open spec fn traceparent_valid(s: Seq<char>) -> bool {
    &&& s.len() >= 55
    &&& s[2] == '-' && s[35] == '-' && s[52] == '-'
    &&& all_hex(s.subrange(0, 2))
    &&& all_hex(s.subrange(3, 35))
    &&& all_hex(s.subrange(36, 52))
    &&& all_hex(s.subrange(53, 55))
    &&& !(s[0] == 'f' && s[1] == 'f')
    &&& (s[0] == '0' && s[1] == '0' ==> s.len() == 55)
    &&& (s.len() > 55 ==> s[55] == '-')
    &&& hex_value(s.subrange(3, 35)) != 0
    &&& hex_value(s.subrange(36, 52)) != 0
}

/// What a traceparent value decodes to; a malformed value decodes to nothing.
pub open spec fn traceparent_decode(s: Seq<char>) -> Option<TraceContext> {
    if traceparent_valid(s) {
        Some(
            TraceContext {
                trace_id: hex_value(s.subrange(3, 35)) as u128,
                span_id: hex_value(s.subrange(36, 52)) as u64,
                sampled: hex_value(s.subrange(53, 55)) % 2 == 1,
            },
        )
    } else {
        None
    }
}

/// The traceparent value written for a context.
pub open spec fn traceparent_encode(ctx: TraceContext) -> Seq<char> {
    "00-"@ + hex_fixed(ctx.trace_id as nat, 32) + "-"@ + hex_fixed(ctx.span_id as nat, 16) + (
    if ctx.sampled {
        "-01"@
    } else {
        "-00"@
    })
}

/// A character with ASCII upper case folded to lower case.
pub open spec fn ascii_lower(c: char) -> char {
    if 'A' <= c && c <= 'Z' {
        (c as nat + 32) as char
    } else {
        c
    }
}

/// Whether a header name equals `lower`, ignoring ASCII case.
pub open spec fn name_matches(name: Seq<char>, lower: Seq<char>) -> bool {
    name.map_values(|c: char| ascii_lower(c)) == lower
}

/// The first header named `traceparent` (in any case), if any.
pub open spec fn find_traceparent(headers: Seq<(Seq<char>, Seq<char>)>) -> Option<Seq<char>>
    decreases headers.len(),
{
    if headers.len() == 0 {
        None
    } else if name_matches(headers[0].0, TRACEPARENT@) {
        Some(headers[0].1)
    } else {
        find_traceparent(headers.drop_first())
    }
}

pub open spec fn headers_view(headers: Seq<(String, String)>) -> Seq<(Seq<char>, Seq<char>)> {
    headers.map_values(|h: (String, String)| (h.0@, h.1@))
}

/// The context that a set of request headers carries, if any.
pub open spec fn extract_spec(headers: Seq<(String, String)>) -> Option<TraceContext> {
    match find_traceparent(headers_view(headers)) {
        Some(v) => traceparent_decode(v),
        None => None,
    }
}

/// Relies on `String::push`: the character is appended at the end.
pub assume_specification[ String::push ](s: &mut String, ch: char)
    ensures
        final(s)@ == old(s)@.push(ch),
;

pub proof fn lemma_hex_value_bound(s: Seq<char>)
    requires
        all_hex(s),
    ensures
        hex_value(s) < pow16(s.len()),
    decreases s.len(),
{
    if s.len() > 0 {
        let p = s.drop_last();
        assert(all_hex(p)) by {
            assert forall|i: int| 0 <= i < p.len() implies is_hex_digit(#[trigger] p[i]) by {
                assert(p[i] == s[i]);
            }
        }
        lemma_hex_value_bound(p);
        assert(is_hex_digit(s[s.len() - 1]));
        assert(hex_value(s) <= (pow16(p.len()) - 1) * 16 + 15) by (nonlinear_arith)
            requires
                hex_value(s) == hex_value(p) * 16 + hex_digit_value(s.last()),
                hex_value(p) < pow16(p.len()),
                hex_digit_value(s.last()) <= 15,
        ;
    }
}

pub proof fn lemma_pow16_values()
    ensures
        pow16(16) == 0x1_0000_0000_0000_0000,
        pow16(32) == 0x1_0000_0000_0000_0000_0000_0000_0000_0000,
{
    reveal_with_fuel(pow16, 33);
}

/// Relies on opentelemetry's `TraceId::from_hex`, which is `u128::from_str_radix(hex, 16)`:
/// a non-empty string of hex digits that fits in 128 bits reads as its base-16 value.
#[verifier::external_body]
fn trace_id_from_hex(hex: &str) -> (r: Option<u128>)
    requires
        1 <= hex@.len() <= 32,
        all_hex(hex@),
    ensures
        r == Some(hex_value(hex@) as u128),
{
    match opentelemetry::trace::TraceId::from_hex(hex) {
        Ok(t) => Some(u128::from_be_bytes(t.to_bytes())),
        Err(_) => None,
    }
}

/// Relies on opentelemetry's `SpanId::from_hex`, which is `u64::from_str_radix(hex, 16)`:
/// a non-empty string of hex digits that fits in 64 bits reads as its base-16 value.
#[verifier::external_body]
fn span_id_from_hex(hex: &str) -> (r: Option<u64>)
    requires
        1 <= hex@.len() <= 16,
        all_hex(hex@),
    ensures
        r == Some(hex_value(hex@) as u64),
{
    match opentelemetry::trace::SpanId::from_hex(hex) {
        Ok(t) => Some(u64::from_be_bytes(t.to_bytes())),
        Err(_) => None,
    }
}

fn hex_digit(c: char) -> (r: u8)
    requires
        is_hex_digit(c),
    ensures
        r as nat == hex_digit_value(c),
        r < 16,
{
    if '0' <= c && c <= '9' {
        (c as u32 - '0' as u32) as u8
    } else {
        (c as u32 - 'a' as u32 + 10) as u8
    }
}

/// Whether the characters `from..to` of `s` are all hex digits.
fn hex_run(s: &str, from: usize, to: usize) -> (r: bool)
    requires
        from <= to <= s@.len(),
    ensures
        r == all_hex(s@.subrange(from as int, to as int)),
{
    let mut i = from;
    while i < to
        invariant
            from <= i <= to <= s@.len(),
            all_hex(s@.subrange(from as int, i as int)),
        decreases to - i,
    {
        let c = s.get_char(i);
        if !(('0' <= c && c <= '9') || ('a' <= c && c <= 'f')) {
            assert(s@.subrange(from as int, to as int)[i - from] == c);
            return false;
        }
        proof {
            let a = s@.subrange(from as int, i as int + 1);
            assert forall|k: int| 0 <= k < a.len() implies is_hex_digit(#[trigger] a[k]) by {
                if k < i - from {
                    assert(a[k] == s@.subrange(from as int, i as int)[k]);
                }
            }
        }
        i = i + 1;
    }
    true
}

/// Decodes a traceparent value; a malformed value gives `None`.
pub fn decode_traceparent(s: &str) -> (r: Option<TraceContext>)
    ensures
        r == traceparent_decode(s@),
{
    let n = s.unicode_len();
    if n < 55 {
        return None;
    }
    if s.get_char(2) != '-' || s.get_char(35) != '-' || s.get_char(52) != '-' {
        return None;
    }
    if !hex_run(s, 0, 2) || !hex_run(s, 3, 35) || !hex_run(s, 36, 52) || !hex_run(s, 53, 55) {
        return None;
    }
    let v0 = s.get_char(0);
    let v1 = s.get_char(1);
    if v0 == 'f' && v1 == 'f' {
        return None;
    }
    if v0 == '0' && v1 == '0' && n != 55 {
        return None;
    }
    if n > 55 && s.get_char(55) != '-' {
        return None;
    }
    let trace_hex = s.substring_char(3, 35);
    let span_hex = s.substring_char(36, 52);
    proof {
        lemma_hex_value_bound(trace_hex@);
        lemma_hex_value_bound(span_hex@);
        lemma_pow16_values();
    }
    let trace_id = match trace_id_from_hex(trace_hex) {
        Some(v) => v,
        None => return None,
    };
    let span_id = match span_id_from_hex(span_hex) {
        Some(v) => v,
        None => return None,
    };
    if trace_id == 0 || span_id == 0 {
        return None;
    }
    let f0 = s.get_char(53);
    let f1 = s.get_char(54);
    proof {
        let fl = s@.subrange(53, 55);
        assert(fl[0] == f0 && fl[1] == f1);
        assert(is_hex_digit(fl[0]) && is_hex_digit(fl[1]));
        assert(fl.drop_last().drop_last() =~= Seq::<char>::empty());
        assert(fl.drop_last().last() == f0);
    }
    let flags: u8 = hex_digit(f0) * 16 + hex_digit(f1);
    Some(TraceContext { trace_id, span_id, sampled: flags % 2 == 1 })
}

fn hex_digit_char(d: u8) -> (r: char)
    requires
        d < 16,
    ensures
        r == hex_char(d as nat),
{
    if d < 10 {
        (d + 48) as char
    } else {
        (d - 10 + 97) as char
    }
}

/// The `n` lowest hex digits of `v`, most significant first.
fn hex_digits(v: u128, n: usize) -> (r: String)
    ensures
        r@ == hex_fixed(v as nat, n as nat),
    decreases n,
{
    if n == 0 {
        String::new()
    } else {
        let mut s = hex_digits(v / 16, n - 1);
        s.push(hex_digit_char((v % 16) as u8));
        s
    }
}

/// Encodes a context as a version-00 traceparent value.
pub fn encode_traceparent(ctx: &TraceContext) -> (r: String)
    ensures
        r@ == traceparent_encode(*ctx),
{
    let mut s = String::from_str("00-");
    let t = hex_digits(ctx.trace_id, 32);
    s.append(t.as_str());
    s.push('-');
    let sp = hex_digits(ctx.span_id as u128, 16);
    s.append(sp.as_str());
    if ctx.sampled {
        s.append("-01");
    } else {
        s.append("-00");
    }
    proof {
        reveal_strlit("00-");
        reveal_strlit("-");
        reveal_strlit("-01");
        reveal_strlit("-00");
        assert(s@ =~= traceparent_encode(*ctx));
    }
    s
}

/// The headers that carry `ctx` out of this process.
pub fn inject(ctx: &TraceContext) -> (r: Vec<(String, String)>)
    ensures
        r@.len() == 1,
        r@[0].0@ == TRACEPARENT@,
        r@[0].1@ == traceparent_encode(*ctx),
{
    let mut r = Vec::new();
    r.push((String::from_str(TRACEPARENT), encode_traceparent(ctx)));
    r
}

/// The trace context that the request headers carry: the first `traceparent`
/// header (its name compared without regard to ASCII case) decoded, or `None`
/// where it is absent or malformed.
pub fn extract(headers: &Vec<(String, String)>) -> (r: Option<TraceContext>)
    ensures
        r == extract_spec(headers@),
{
    let mut i: usize = 0;
    assert(headers_view(headers@).subrange(0, headers@.len() as int) =~= headers_view(headers@));
    while i < headers.len()
        invariant
            0 <= i <= headers@.len(),
            find_traceparent(headers_view(headers@)) == find_traceparent(
                headers_view(headers@).subrange(i as int, headers@.len() as int),
            ),
        decreases headers.len() - i,
    {
        let ghost rest = headers_view(headers@).subrange(i as int, headers@.len() as int);
        proof {
            assert(rest[0] == (headers@[i as int].0@, headers@[i as int].1@));
            assert(rest.drop_first() =~= headers_view(headers@).subrange(
                i as int + 1,
                headers@.len() as int,
            ));
        }
        if eq_ignore_case(headers[i].0.as_str(), TRACEPARENT) {
            return decode_traceparent(headers[i].1.as_str());
        }
        i = i + 1;
    }
    assert(headers_view(headers@).subrange(i as int, headers@.len() as int).len() == 0);
    None
}

fn lower_char(c: char) -> (r: char)
    ensures
        r == ascii_lower(c),
{
    if 'A' <= c && c <= 'Z' {
        (c as u8 + 32) as char
    } else {
        c
    }
}

/// Whether `a` equals the lower-case `b`, ignoring ASCII case in `a`.
fn eq_ignore_case(a: &str, b: &str) -> (r: bool)
    ensures
        r == name_matches(a@, b@),
{
    let ghost la = a@.map_values(|c: char| ascii_lower(c));
    let n = a.unicode_len();
    if n != b.unicode_len() {
        assert(la.len() != b@.len());
        return false;
    }
    let mut i: usize = 0;
    while i < n
        invariant
            n == a@.len() == b@.len() == la.len(),
            la == a@.map_values(|c: char| ascii_lower(c)),
            0 <= i <= n,
            la.subrange(0, i as int) == b@.subrange(0, i as int),
        decreases n - i,
    {
        if lower_char(a.get_char(i)) != b.get_char(i) {
            assert(la[i as int] != b@[i as int]);
            return false;
        }
        assert(la.subrange(0, i as int + 1) =~= la.subrange(0, i as int).push(la[i as int]));
        assert(b@.subrange(0, i as int + 1) =~= b@.subrange(0, i as int).push(b@[i as int]));
        i = i + 1;
    }
    assert(la =~= la.subrange(0, n as int));
    assert(b@ =~= b@.subrange(0, n as int));
    true
}

proof fn lemma_hex_char(d: nat)
    requires
        d < 16,
    ensures
        is_hex_digit(hex_char(d)),
        hex_digit_value(hex_char(d)) == d,
{
}

proof fn lemma_hex_fixed(v: nat, n: nat)
    ensures
        hex_fixed(v, n).len() == n,
        all_hex(hex_fixed(v, n)),
        v < pow16(n) ==> hex_value(hex_fixed(v, n)) == v,
    decreases n,
{
    if n > 0 {
        let m = (n - 1) as nat;
        lemma_hex_fixed(v / 16, m);
        lemma_hex_char(v % 16);
        let s = hex_fixed(v, n);
        let p = hex_fixed(v / 16, m);
        assert(s == p.push(hex_char(v % 16)));
        assert(s.drop_last() =~= p);
        assert forall|i: int| 0 <= i < s.len() implies is_hex_digit(#[trigger] s[i]) by {
            if i < p.len() {
                assert(s[i] == p[i]);
            }
        }
        if v < pow16(n) {
            assert(v / 16 < pow16(m)) by (nonlinear_arith)
                requires
                    v < pow16(n),
                    pow16(n) == 16 * pow16(m),
            ;
            assert(v == (v / 16) * 16 + v % 16) by (nonlinear_arith);
        }
    }
}

/// Decoding what `inject` encodes gives back the same context, for every
/// context with valid (non-zero) ids.
pub proof fn lemma_traceparent_round_trip(ctx: TraceContext)
    requires
        ctx.trace_id != 0,
        ctx.span_id != 0,
    ensures
        traceparent_decode(traceparent_encode(ctx)) == Some(ctx),
{
    reveal_strlit("00-");
    reveal_strlit("-");
    reveal_strlit("-01");
    reveal_strlit("-00");
    let t = hex_fixed(ctx.trace_id as nat, 32);
    let sp = hex_fixed(ctx.span_id as nat, 16);
    lemma_pow16_values();
    lemma_hex_fixed(ctx.trace_id as nat, 32);
    lemma_hex_fixed(ctx.span_id as nat, 16);
    let fl: Seq<char> = if ctx.sampled {
        seq!['0', '1']
    } else {
        seq!['0', '0']
    };
    let s = traceparent_encode(ctx);
    assert(s =~= seq!['0', '0', '-'] + t + seq!['-'] + sp + seq!['-'] + fl);
    assert(s.subrange(3, 35) =~= t);
    assert(s.subrange(36, 52) =~= sp);
    assert(s.subrange(53, 55) =~= fl);
    assert(s.subrange(0, 2) =~= seq!['0', '0']);
    assert(fl.drop_last().drop_last() =~= Seq::<char>::empty());
    assert(seq!['0', '0'].drop_last().drop_last() =~= Seq::<char>::empty());
    assert(s[2] == '-' && s[35] == '-' && s[52] == '-');
    assert(all_hex(s.subrange(0, 2)));
    assert(all_hex(fl));
    assert(hex_value(fl) % 2 == 1 <==> ctx.sampled);
}

} // verus!
