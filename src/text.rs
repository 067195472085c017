//! The text form of edge lists and of drawings: numbers between commas,
//! groups between slashes.
use vstd::prelude::*;
use crate::solver::views;

verus! {

/// The byte `,`, between the numbers of a pair or of a drawing.
pub const COMMA: u8 = 44;

/// The byte `/`, between pairs or between drawings.
pub const SLASH: u8 = 47;

/// The byte `-`.
pub const MINUS: u8 = 45;

/// The byte `+`.
pub const PLUS: u8 = 43;

/// The byte `0`.
pub const ZERO: u8 = 48;

pub open spec fn is_digit(b: u8) -> bool {
    ZERO <= b <= ZERO + 9
}

pub open spec fn all_digits(s: Seq<u8>) -> bool {
    forall|i: int| 0 <= i < s.len() ==> is_digit(#[trigger] s[i])
}

/// The value of a run of decimal digits.
pub open spec fn digits_value(s: Seq<u8>) -> int
    decreases s.len(),
{
    if s.len() == 0 {
        0
    } else {
        digits_value(s.drop_last()) * 10 + (s.last() - ZERO)
    }
}

/// The value of a nonempty run of decimal digits.
pub open spec fn unsigned_of(d: Seq<u8>) -> Option<int> {
    if d.len() > 0 && all_digits(d) {
        Some(digits_value(d))
    } else {
        None
    }
}

/// `s` begins with a sign.
pub open spec fn has_sign(s: Seq<u8>) -> bool {
    s.len() > 0 && (s[0] == MINUS || s[0] == PLUS)
}

/// The integer that `s` writes in decimal: digits, after an optional sign.
pub open spec fn signed_of(s: Seq<u8>) -> Option<int> {
    if has_sign(s) {
        match unsigned_of(s.drop_first()) {
            Some(v) => Some(if s[0] == MINUS { -v } else { v }),
            None => None,
        }
    } else {
        unsigned_of(s)
    }
}

/// The `i32` that `s` writes, if it writes one in range.
pub open spec fn i32_of(s: Seq<u8>) -> Option<i32> {
    match signed_of(s) {
        Some(v) => if i32::MIN <= v <= i32::MAX {
            Some(v as i32)
        } else {
            None
        },
        None => None,
    }
}

/// The pieces of `s` between the occurrences of `sep`; there is always at
/// least one, and an empty `s` has one empty piece.
pub open spec fn split(s: Seq<u8>, sep: u8) -> Seq<Seq<u8>>
    decreases s.len(),
{
    if s.len() == 0 {
        seq![Seq::empty()]
    } else {
        let rest = split(s.drop_last(), sep);
        if s.last() == sep {
            rest.push(Seq::empty())
        } else {
            rest.update(rest.len() - 1, rest.last().push(s.last()))
        }
    }
}

/// Splitting always yields at least one piece.
proof fn lemma_split_nonempty(s: Seq<u8>, sep: u8)
    ensures
        split(s, sep).len() >= 1,
    decreases s.len(),
{
    if s.len() > 0 {
        lemma_split_nonempty(s.drop_last(), sep);
    }
}

/// The views of a list of byte strings.
pub open spec fn byte_views(v: Seq<Vec<u8>>) -> Seq<Seq<u8>> {
    v.map_values(|x: Vec<u8>| x@)
}

/// Cuts `s` at each occurrence of `sep`.
pub fn split_bytes(s: &[u8], sep: u8) -> (r: Vec<Vec<u8>>)
    ensures
        byte_views(r@) == split(s@, sep),
{
    let mut done: Vec<Vec<u8>> = Vec::new();
    let mut cur: Vec<u8> = Vec::new();
    let mut i: usize = 0;
    while i < s.len()
        invariant
            i <= s@.len(),
            byte_views(done@).push(cur@) == split(s@.take(i as int), sep),
        decreases s@.len() - i,
    {
        proof {
            lemma_split_nonempty(s@.take(i as int), sep);
            assert(s@.take(i + 1).drop_last() =~= s@.take(i as int));
        }
        if s[i] == sep {
            let piece = cur;
            cur = Vec::new();
            done.push(piece);
            assert(byte_views(done@).push(cur@) =~= split(s@.take(i + 1), sep));
        } else {
            cur.push(s[i]);
            assert(byte_views(done@).push(cur@) =~= split(s@.take(i + 1), sep));
        }
        i = i + 1;
    }
    done.push(cur);
    assert(s@.take(s@.len() as int) =~= s@);
    assert(byte_views(done@) =~= split(s@, sep));
    done
}

/// A signed number is the unsigned one after its sign.
proof fn lemma_signed_unsigned(s: Seq<u8>)
    requires
        has_sign(s),
    ensures
        signed_of(s) == match unsigned_of(s.drop_first()) {
            Some(v) => Some(if s[0] == MINUS { -v } else { v }),
            None => None,
        },
{
}

/// The value of digits grows as more digits follow.
proof fn lemma_digits_value_grows(s: Seq<u8>, k: int)
    requires
        all_digits(s),
        0 <= k <= s.len(),
    ensures
        digits_value(s) >= digits_value(s.take(k)) >= 0,
    decreases s.len(),
{
    if k == s.len() {
        assert(s.take(k) =~= s);
        if s.len() > 0 {
            lemma_digits_value_grows(s.drop_last(), 0);
            assert(is_digit(s[s.len() - 1]));
        }
    } else {
        let t = s.drop_last();
        assert(all_digits(t)) by {
            assert forall|i: int| 0 <= i < t.len() implies is_digit(#[trigger] t[i]) by {
                assert(t[i] == s[i]);
            }
        }
        lemma_digits_value_grows(t, k);
        assert(t.take(k) =~= s.take(k));
        assert(is_digit(s[s.len() - 1]));
    }
}

/// Reads the `i32` that `s` writes in decimal, after an optional sign.
pub fn parse_i32(s: &Vec<u8>) -> (r: Option<i32>)
    ensures
        r == i32_of(s@),
{
    let n = s.len();
    if n == 0 {
        return None;
    }
    let neg = s[0] == MINUS;
    let start: usize = if s[0] == MINUS || s[0] == PLUS {
        1
    } else {
        0
    };
    let ghost d = s@.subrange(start as int, n as int);
    assert(start == 1 ==> d =~= s@.drop_first());
    assert(start == 0 ==> d =~= s@);
    if start == n {
        return None;
    }
    let mut acc: u64 = 0;
    let mut i: usize = start;
    while i < n
        invariant
            n == s.len(),
            start <= i <= n,
            start <= 1,
            d == s@.subrange(start as int, n as int),
            n > 0,
            neg == (s@[0] == MINUS),
            start == 1 ==> d == s@.drop_first() && (s@[0] == MINUS || s@[0] == PLUS),
            start == 0 ==> d == s@ && !(s@[0] == MINUS || s@[0] == PLUS),
            all_digits(d.take(i - start)),
            acc == digits_value(d.take(i - start)),
            acc <= 2147483648,
        decreases n - i,
    {
        let b = s[i];
        assert(d[i - start] == b);
        if b < ZERO || b > ZERO + 9 {
            assert(!is_digit(d[i - start]));
            assert(!all_digits(d));
            proof {
                if start == 1 {
                    lemma_signed_unsigned(s@);
                }
            }
            return None;
        }
        let next = acc * 10 + (b - ZERO) as u64;
        proof {
            let k = i - start;
            assert(d.take(k + 1).drop_last() =~= d.take(k));
            assert(digits_value(d.take(k + 1)) == next);
            assert(all_digits(d.take(k + 1))) by {
                assert forall|j: int| 0 <= j < k + 1 implies is_digit(#[trigger] d.take(k + 1)[j]) by {
                    if j < k {
                        assert(d.take(k + 1)[j] == d.take(k)[j]);
                    }
                }
            }
        }
        if next > 2147483648 {
            proof {
                if all_digits(d) {
                    lemma_digits_value_grows(d, i - start + 1);
                }
                if start == 1 {
                    lemma_signed_unsigned(s@);
                }
            }
            return None;
        }
        acc = next;
        i = i + 1;
    }
    assert(d.take(n - start) =~= d);
    proof {
        if start == 1 {
            lemma_signed_unsigned(s@);
        }
    }
    if neg {
        Some((0 - acc as i64) as i32)
    } else if acc <= 2147483647 {
        Some(acc as i32)
    } else {
        None
    }
}

/// The pair that `piece` writes as `x,y`; what follows a second comma is not read.
pub open spec fn pair_of(piece: Seq<u8>) -> Option<(i32, i32)> {
    let f = split(piece, COMMA);
    if f.len() >= 2 && i32_of(f[0]) is Some && i32_of(f[1]) is Some {
        Some((i32_of(f[0])->0, i32_of(f[1])->0))
    } else {
        None
    }
}

/// The edge list that `text` writes: pairs `x,y` between slashes.
pub open spec fn edges_of(text: Seq<u8>) -> Option<Seq<(i32, i32)>> {
    let ps = split(text, SLASH);
    if forall|i: int| 0 <= i < ps.len() ==> #[trigger] pair_of(ps[i]) is Some {
        Some(Seq::new(ps.len(), |i: int| pair_of(ps[i])->0))
    } else {
        None
    }
}

/// Reads one pair `x,y`.
pub fn parse_pair(piece: &Vec<u8>) -> (r: Option<(i32, i32)>)
    ensures
        r == pair_of(piece@),
{
    let f = split_bytes(piece.as_slice(), COMMA);
    if f.len() < 2 {
        return None;
    }
    assert(f[0]@ == split(piece@, COMMA)[0]);
    assert(f[1]@ == split(piece@, COMMA)[1]);
    match (parse_i32(&f[0]), parse_i32(&f[1])) {
        (Some(a), Some(b)) => Some((a, b)),
        _ => None,
    }
}

/// Reads an edge list written as pairs `x,y` between slashes; `None` where the
/// text is not of that form.
pub fn parse_edges(text: &[u8]) -> (r: Option<Vec<(i32, i32)>>)
    ensures
        match r {
            Some(v) => edges_of(text@) == Some(v@),
            None => edges_of(text@) is None,
        },
{
    let ps = split_bytes(text, SLASH);
    let ghost pv = split(text@, SLASH);
    let mut out: Vec<(i32, i32)> = Vec::new();
    let mut k: usize = 0;
    while k < ps.len()
        invariant
            byte_views(ps@) == pv,
            pv == split(text@, SLASH),
            k <= ps.len(),
            out@ == Seq::new(k as nat, |i: int| pair_of(pv[i])->0),
            forall|i: int| 0 <= i < k ==> #[trigger] pair_of(pv[i]) is Some,
        decreases ps.len() - k,
    {
        assert(ps[k as int]@ == pv[k as int]);
        match parse_pair(&ps[k]) {
            Some(e) => {
                out.push(e);
                assert(out@ =~= Seq::new((k + 1) as nat, |i: int| pair_of(pv[i])->0));
            },
            None => {
                return None;
            },
        }
        k = k + 1;
    }
    assert(out@ =~= Seq::new(pv.len(), |i: int| pair_of(pv[i])->0));
    Some(out)
}

/// The decimal digits of `n`, without leading zeros.
pub open spec fn digits_of(n: nat) -> Seq<u8>
    decreases n,
{
    if n < 10 {
        seq![(ZERO + n) as u8]
    } else {
        digits_of(n / 10).push((ZERO + n % 10) as u8)
    }
}

/// `v` in decimal, with `-` before a negative number.
pub open spec fn text_of_int(v: int) -> Seq<u8> {
    if v < 0 {
        seq![MINUS] + digits_of((-v) as nat)
    } else {
        digits_of(v as nat)
    }
}

/// The parts with `sep` between each two of them.
pub open spec fn join(parts: Seq<Seq<u8>>, sep: u8) -> Seq<u8>
    decreases parts.len(),
{
    if parts.len() == 0 {
        Seq::empty()
    } else if parts.len() == 1 {
        parts[0]
    } else {
        join(parts.drop_last(), sep).push(sep) + parts.last()
    }
}

/// A drawing as text: its points, separated by commas.
pub open spec fn text_of_trail(t: Seq<i32>) -> Seq<u8> {
    join(t.map_values(|n: i32| text_of_int(n as int)), COMMA)
}

/// Drawings as text, separated by slashes.
pub open spec fn text_of_trails(r: Seq<Seq<i32>>) -> Seq<u8> {
    join(r.map_values(|t: Seq<i32>| text_of_trail(t)), SLASH)
}

/// Every byte of `s` is ASCII.
pub open spec fn ascii(s: Seq<u8>) -> bool {
    forall|i: int| 0 <= i < s.len() ==> #[trigger] s[i] < 128
}

/// Appends the decimal digits of `n`.
fn push_digits(out: &mut Vec<u8>, n: u32)
    requires
        ascii(old(out)@),
    ensures
        ascii(final(out)@),
        final(out)@ == old(out)@ + digits_of(n as nat),
    decreases n,
{
    if n >= 10 {
        push_digits(out, n / 10);
    }
    out.push(ZERO + (n % 10) as u8);
    assert(final(out)@ =~= old(out)@ + digits_of(n as nat));
}

/// Appends `v` in decimal.
fn push_int(out: &mut Vec<u8>, v: i32)
    requires
        ascii(old(out)@),
    ensures
        ascii(final(out)@),
        final(out)@ == old(out)@ + text_of_int(v as int),
{
    if v < 0 {
        out.push(MINUS);
        push_digits(out, (0 - (v as i64)) as u32);
    } else {
        push_digits(out, v as u32);
    }
    assert(final(out)@ =~= old(out)@ + text_of_int(v as int));
}

/// Joining one more part adds the separator and the part.
proof fn lemma_join_step(parts: Seq<Seq<u8>>, sep: u8, k: int)
    requires
        1 <= k < parts.len(),
    ensures
        join(parts.take(k + 1), sep) == join(parts.take(k), sep).push(sep) + parts[k],
{
    assert(parts.take(k + 1).drop_last() =~= parts.take(k));
}

/// Appends the text of one drawing.
fn push_trail(out: &mut Vec<u8>, t: &Vec<i32>)
    requires
        ascii(old(out)@),
    ensures
        ascii(final(out)@),
        final(out)@ == old(out)@ + text_of_trail(t@),
{
    let ghost base = out@;
    let ghost parts = t@.map_values(|n: i32| text_of_int(n as int));
    let mut j: usize = 0;
    while j < t.len()
        invariant
            j <= t.len(),
            parts == t@.map_values(|n: i32| text_of_int(n as int)),
            out@ == base + join(parts.take(j as int), COMMA),
            ascii(out@),
        decreases t.len() - j,
    {
        if j > 0 {
            out.push(COMMA);
            proof {
                lemma_join_step(parts, COMMA, j as int);
            }
        } else {
            assert(parts.take(1) =~= seq![parts[0]]);
        }
        push_int(out, t[j]);
        assert(out@ =~= base + join(parts.take(j + 1), COMMA));
        j = j + 1;
    }
    assert(parts.take(t.len() as int) =~= parts);
}

/// Writes drawings as text: the points of each separated by commas, the
/// drawings separated by slashes.
pub fn format_trails(r: &Vec<Vec<i32>>) -> (out: Vec<u8>)
    ensures
        out@ == text_of_trails(r@.map_values(|v: Vec<i32>| v@)),
        ascii(out@),
{
    let ghost rs = r@.map_values(|v: Vec<i32>| v@);
    let ghost parts = rs.map_values(|t: Seq<i32>| text_of_trail(t));
    let mut out: Vec<u8> = Vec::new();
    let mut j: usize = 0;
    while j < r.len()
        invariant
            j <= r.len(),
            rs == r@.map_values(|v: Vec<i32>| v@),
            parts == rs.map_values(|t: Seq<i32>| text_of_trail(t)),
            out@ == join(parts.take(j as int), SLASH),
            ascii(out@),
        decreases r.len() - j,
    {
        if j > 0 {
            out.push(SLASH);
            proof {
                lemma_join_step(parts, SLASH, j as int);
            }
        } else {
            assert(parts.take(1) =~= seq![parts[0]]);
        }
        push_trail(&mut out, &r[j]);
        assert(parts[j as int] == text_of_trail(r[j as int]@));
        assert(out@ =~= join(parts.take(j + 1), SLASH));
        j = j + 1;
    }
    assert(parts.take(r.len() as int) =~= parts);
    out
}

/// The drawing that `piece` writes: numbers between commas.
pub open spec fn trail_of(piece: Seq<u8>) -> Option<Seq<i32>> {
    let f = split(piece, COMMA);
    if forall|i: int| 0 <= i < f.len() ==> #[trigger] i32_of(f[i]) is Some {
        Some(Seq::new(f.len(), |i: int| i32_of(f[i])->0))
    } else {
        None
    }
}

/// The drawings that `text` writes, between slashes.
pub open spec fn trails_of(text: Seq<u8>) -> Option<Seq<Seq<i32>>> {
    let ps = split(text, SLASH);
    if forall|i: int| 0 <= i < ps.len() ==> #[trigger] trail_of(ps[i]) is Some {
        Some(Seq::new(ps.len(), |i: int| trail_of(ps[i])->0))
    } else {
        None
    }
}

/// Reads one drawing: numbers between commas.
pub fn parse_trail(piece: &Vec<u8>) -> (r: Option<Vec<i32>>)
    ensures
        match r {
            Some(t) => trail_of(piece@) == Some(t@),
            None => trail_of(piece@) is None,
        },
{
    let f = split_bytes(piece.as_slice(), COMMA);
    let ghost fv = split(piece@, COMMA);
    let mut out: Vec<i32> = Vec::new();
    let mut k: usize = 0;
    while k < f.len()
        invariant
            byte_views(f@) == fv,
            fv == split(piece@, COMMA),
            k <= f.len(),
            out@ == Seq::new(k as nat, |i: int| i32_of(fv[i])->0),
            forall|i: int| 0 <= i < k ==> #[trigger] i32_of(fv[i]) is Some,
        decreases f.len() - k,
    {
        assert(f[k as int]@ == fv[k as int]);
        match parse_i32(&f[k]) {
            Some(n) => {
                out.push(n);
                assert(out@ =~= Seq::new((k + 1) as nat, |i: int| i32_of(fv[i])->0));
            },
            None => {
                return None;
            },
        }
        k = k + 1;
    }
    assert(out@ =~= Seq::new(fv.len(), |i: int| i32_of(fv[i])->0));
    Some(out)
}

/// Reads drawings written between slashes; `None` where the text is not of
/// that form.
pub fn parse_trails(text: &[u8]) -> (r: Option<Vec<Vec<i32>>>)
    ensures
        match r {
            Some(v) => trails_of(text@) == Some(views(v@)),
            None => trails_of(text@) is None,
        },
{
    let ps = split_bytes(text, SLASH);
    let ghost pv = split(text@, SLASH);
    let mut out: Vec<Vec<i32>> = Vec::new();
    let mut k: usize = 0;
    while k < ps.len()
        invariant
            byte_views(ps@) == pv,
            pv == split(text@, SLASH),
            k <= ps.len(),
            out.len() == k,
            views(out@) == Seq::new(k as nat, |i: int| trail_of(pv[i])->0),
            forall|i: int| 0 <= i < k ==> #[trigger] trail_of(pv[i]) is Some,
        decreases ps.len() - k,
    {
        assert(ps[k as int]@ == pv[k as int]);
        match parse_trail(&ps[k]) {
            Some(t) => {
                let ghost o0 = out@;
                out.push(t);
                assert forall|i: int| 0 <= i < k implies out@[i] == o0[i] by {}
                assert forall|i: int| 0 <= i < k + 1 implies (#[trigger] views(out@)[i]) == trail_of(pv[i])->0 by {
                    if i < k {
                        assert(views(o0)[i] == trail_of(pv[i])->0);
                    }
                }
                assert(views(out@) =~= Seq::new(
                    (k + 1) as nat,
                    |i: int| trail_of(pv[i])->0,
                ));
            },
            None => {
                return None;
            },
        }
        k = k + 1;
    }
    assert(views(out@) =~= Seq::new(pv.len(), |i: int| trail_of(pv[i])->0));
    Some(out)
}

/// The digits of `n` are digits, at least one, and have the value `n`.
proof fn lemma_digits(n: nat)
    ensures
        digits_of(n).len() >= 1,
        all_digits(digits_of(n)),
        digits_value(digits_of(n)) == n,
    decreases n,
{
    if n >= 10 {
        lemma_digits(n / 10);
        let d = digits_of(n / 10);
        let e = digits_of(n);
        assert(e.drop_last() =~= d);
        assert forall|i: int| 0 <= i < e.len() implies is_digit(#[trigger] e[i]) by {
            if i < d.len() {
                assert(e[i] == d[i]);
            }
        }
        assert(e.last() == ZERO + n % 10);
        assert(digits_value(e) == digits_value(d) * 10 + n % 10);
        assert(n == (n / 10) * 10 + n % 10);
    } else {
        let e = digits_of(n);
        assert(e.drop_last() =~= Seq::<u8>::empty());
        assert(e.last() == ZERO + n);
        assert(digits_value(e) == digits_value(Seq::<u8>::empty()) * 10 + n);
    }
}

/// The text of an `i32` reads back as it, and holds no separator.
proof fn lemma_int_text(v: i32)
    ensures
        i32_of(text_of_int(v as int)) == Some(v),
        !text_of_int(v as int).contains(COMMA),
        !text_of_int(v as int).contains(SLASH),
{
    let s = text_of_int(v as int);
    if v < 0 {
        let d = digits_of((-v) as nat);
        lemma_digits((-v) as nat);
        assert(s.drop_first() =~= d);
        assert(has_sign(s));
        lemma_signed_unsigned(s);
        assert forall|i: int| 0 <= i < s.len() implies s[i] != COMMA && s[i] != SLASH by {
            if i > 0 {
                assert(s[i] == d[i - 1]);
                assert(is_digit(d[i - 1]));
            }
        }
    } else {
        lemma_digits(v as nat);
        assert(is_digit(s[0]));
        assert forall|i: int| 0 <= i < s.len() implies s[i] != COMMA && s[i] != SLASH by {
            assert(is_digit(s[i]));
        }
    }
}

/// Appending bytes free of the separator lengthens the last piece.
proof fn lemma_split_append(x: Seq<u8>, b: Seq<u8>, sep: u8)
    requires
        !b.contains(sep),
    ensures
        split(x + b, sep) == split(x, sep).update(split(x, sep).len() - 1, split(x, sep).last() + b),
    decreases b.len(),
{
    lemma_split_nonempty(x, sep);
    let sx = split(x, sep);
    if b.len() == 0 {
        assert(x + b =~= x);
        assert(sx.update(sx.len() - 1, sx.last() + b) =~= sx);
    } else {
        let c = b.drop_last();
        assert(!c.contains(sep)) by {
            if c.contains(sep) {
                let i = choose|i: int| 0 <= i < c.len() && c[i] == sep;
                assert(b[i] == sep);
            }
        }
        lemma_split_append(x, c, sep);
        assert((x + b).drop_last() =~= x + c);
        assert((x + b).last() == b.last());
        assert(b.last() != sep) by {
            assert(b[b.len() - 1] == b.last());
        }
        assert(split(x + b, sep) =~= sx.update(sx.len() - 1, sx.last() + b)) by {
            assert(sx.last() + c + seq![b.last()] =~= sx.last() + b);
            assert((sx.last() + c).push(b.last()) =~= sx.last() + b);
        }
    }
}

/// Splitting joined parts that hold no separator gives the parts back.
proof fn lemma_split_join(parts: Seq<Seq<u8>>, sep: u8)
    requires
        parts.len() >= 1,
        forall|i: int| 0 <= i < parts.len() ==> !(#[trigger] parts[i]).contains(sep),
    ensures
        split(join(parts, sep), sep) == parts,
    decreases parts.len(),
{
    let e = Seq::<u8>::empty();
    if parts.len() == 1 {
        lemma_split_append(e, parts[0], sep);
        assert(e + parts[0] =~= parts[0]);
        assert(split(e, sep) == seq![e]);
        assert(e + parts[0] =~= parts[0]);
        assert(seq![e].update(0, e + parts[0]) =~= parts);
    } else {
        let init = parts.drop_last();
        assert forall|i: int| 0 <= i < init.len() implies !(#[trigger] init[i]).contains(sep) by {
            assert(init[i] == parts[i]);
        }
        lemma_split_join(init, sep);
        let j = join(init, sep).push(sep);
        assert(!parts.last().contains(sep)) by {
            assert(parts[parts.len() - 1] == parts.last());
        }
        lemma_split_append(j, parts.last(), sep);
        assert(j.drop_last() =~= join(init, sep));
        assert(split(j, sep) == init.push(e));
        assert(e + parts.last() =~= parts.last());
        assert(init.push(e).update(init.len() as int, e + parts.last()) =~= parts);
    }
}

/// Joined parts hold a byte only where a part or the separator does.
proof fn lemma_join_avoids(parts: Seq<Seq<u8>>, sep: u8, b: u8)
    requires
        sep != b,
        forall|i: int| 0 <= i < parts.len() ==> !(#[trigger] parts[i]).contains(b),
    ensures
        !join(parts, sep).contains(b),
    decreases parts.len(),
{
    if parts.len() >= 2 {
        let init = parts.drop_last();
        assert forall|i: int| 0 <= i < init.len() implies !(#[trigger] init[i]).contains(b) by {
            assert(init[i] == parts[i]);
        }
        lemma_join_avoids(init, sep, b);
        let j = join(init, sep).push(sep);
        let l = parts.last();
        assert(!l.contains(b)) by {
            assert(parts[parts.len() - 1] == l);
        }
        if (j + l).contains(b) {
            let i = choose|i: int| 0 <= i < (j + l).len() && (j + l)[i] == b;
            if i < join(init, sep).len() {
                assert(join(init, sep)[i] == b);
            } else if i >= j.len() {
                assert(l[i - j.len()] == b);
            }
        }
    } else if parts.len() == 1 {
        assert(!parts[0].contains(b));
    }
}

/// A nonempty drawing read back from its text.
proof fn lemma_trail_round_trip(t: Seq<i32>)
    requires
        t.len() >= 1,
    ensures
        trail_of(text_of_trail(t)) == Some(t),
        !text_of_trail(t).contains(SLASH),
{
    let parts = t.map_values(|n: i32| text_of_int(n as int));
    assert forall|i: int| 0 <= i < parts.len() implies !(#[trigger] parts[i]).contains(COMMA)
        && !parts[i].contains(SLASH) && i32_of(parts[i]) == Some(t[i]) by {
        lemma_int_text(t[i]);
    }
    lemma_split_join(parts, COMMA);
    lemma_join_avoids(parts, COMMA, SLASH);
    let f = split(text_of_trail(t), COMMA);
    assert(f == parts);
    assert(forall|i: int| 0 <= i < f.len() ==> #[trigger] i32_of(f[i]) is Some);
    assert(Seq::new(f.len(), |i: int| i32_of(f[i])->0) =~= t);
}

/// Writing drawings as text and reading the text back gives the same
/// drawings, where there is at least one drawing and none is empty.
pub proof fn lemma_text_round_trip(r: Seq<Seq<i32>>)
    requires
        r.len() >= 1,
        forall|i: int| 0 <= i < r.len() ==> (#[trigger] r[i]).len() >= 1,
    ensures
        trails_of(text_of_trails(r)) == Some(r),
{
    let parts = r.map_values(|t: Seq<i32>| text_of_trail(t));
    assert forall|i: int| 0 <= i < parts.len() implies !(#[trigger] parts[i]).contains(SLASH)
        && trail_of(parts[i]) == Some(r[i]) by {
        lemma_trail_round_trip(r[i]);
    }
    lemma_split_join(parts, SLASH);
    let ps = split(text_of_trails(r), SLASH);
    assert(ps == parts);
    assert(forall|i: int| 0 <= i < ps.len() ==> #[trigger] trail_of(ps[i]) is Some);
    assert(Seq::new(ps.len(), |i: int| trail_of(ps[i])->0) =~= r);
}

} // verus!
