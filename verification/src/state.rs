//! The mutable keyboard state and its persisted form.
//!
//! The state is saved as a small JSON document with a fixed key order:
//! the chroma and value planes of the colour buffer, the mode-global colour,
//! and the brightness, effect and speed settings. The loader reads exactly
//! the documents the saver writes.

use vstd::prelude::*;

verus! {

/// The device state a keyboard controller caches and persists.
pub struct KeyboardState {
    /// Per-LED hue and saturation.
    pub chroma: Vec<(u8, u8)>,
    /// Per-LED brightness.
    pub value: Vec<u8>,
    /// The mode-global colour: hue and saturation.
    pub color: (u8, u8),
    pub brightness: u8,
    pub effect: u8,
    pub speed: u8,
}

/// The mathematical content of a [`KeyboardState`].
pub ghost struct StateV {
    pub chroma: Seq<(u8, u8)>,
    pub value: Seq<u8>,
    pub color: (u8, u8),
    pub brightness: u8,
    pub effect: u8,
    pub speed: u8,
}

impl View for KeyboardState {
    type V = StateV;

    open spec fn view(&self) -> StateV {
        StateV {
            chroma: self.chroma@,
            value: self.value@,
            color: self.color,
            brightness: self.brightness,
            effect: self.effect,
            speed: self.speed,
        }
    }
}

pub open spec fn is_dec_byte(b: u8) -> bool {
    48 <= b <= 57
}

/// The decimal digits of an 8-bit number.
pub open spec fn dec_u8(n: u8) -> Seq<u8> {
    if n < 10 {
        seq![(48 + n) as u8]
    } else if n < 100 {
        seq![(48 + n / 10) as u8, (48 + n % 10) as u8]
    } else {
        seq![(48 + n / 100) as u8, (48 + (n / 10) % 10) as u8, (48 + n % 10) as u8]
    }
}

/// The value of a string of decimal digit bytes.
pub open spec fn dec_bytes_val(s: Seq<u8>) -> int
    decreases s.len(),
{
    if s.len() == 0 {
        0
    } else {
        dec_bytes_val(s.drop_last()) * 10 + (s.last() - 48)
    }
}

/// A pair on the wire: `[a,b]`.
pub open spec fn emit_pair(p: (u8, u8)) -> Seq<u8> {
    seq![91u8] + dec_u8(p.0) + seq![44u8] + dec_u8(p.1) + seq![93u8]
}

/// A list of pairs, comma separated.
pub open spec fn emit_pairs(l: Seq<(u8, u8)>) -> Seq<u8>
    decreases l.len(),
{
    if l.len() == 0 {
        Seq::empty()
    } else if l.len() == 1 {
        emit_pair(l[0])
    } else {
        emit_pair(l[0]) + seq![44u8] + emit_pairs(l.skip(1))
    }
}

/// A list of numbers, comma separated.
pub open spec fn emit_nums(l: Seq<u8>) -> Seq<u8>
    decreases l.len(),
{
    if l.len() == 0 {
        Seq::empty()
    } else if l.len() == 1 {
        dec_u8(l[0])
    } else {
        dec_u8(l[0]) + seq![44u8] + emit_nums(l.skip(1))
    }
}

/// The saved form of a state: a JSON document with a fixed key order.
pub open spec fn emit_state(v: StateV) -> Seq<u8> {
    "{\"colors\":[["@.map_values(|c: char| c as u8) + emit_pairs(v.chroma) + "],["@.map_values(
        |c: char| c as u8,
    ) + emit_nums(v.value) + "]],\"color\":"@.map_values(|c: char| c as u8) + emit_pair(v.color)
        + ",\"brightness\":"@.map_values(|c: char| c as u8) + dec_u8(v.brightness)
        + ",\"effect\":"@.map_values(|c: char| c as u8) + dec_u8(v.effect)
        + ",\"speed\":"@.map_values(|c: char| c as u8) + dec_u8(v.speed) + seq![125u8]
}

/// Every digit of `dec_u8` is a decimal digit, the digits read back as the
/// number, and one to three of them are written.
pub proof fn lemma_dec_u8(n: u8)
    ensures
        forall|i: int| 0 <= i < dec_u8(n).len() ==> is_dec_byte(#[trigger] dec_u8(n)[i]),
        dec_bytes_val(dec_u8(n)) == n,
        1 <= dec_u8(n).len() <= 3,
{
    reveal_with_fuel(dec_bytes_val, 5);
    let d = dec_u8(n);
    if n < 10 {
        assert(d.drop_last() =~= Seq::<u8>::empty());
        assert(dec_bytes_val(d) == n);
    } else if n < 100 {
        let two = d;
        assert(two.drop_last() =~= seq![(48 + n / 10) as u8]);
        assert(two.drop_last().drop_last() =~= Seq::<u8>::empty());
        assert(dec_bytes_val(two.drop_last()) == n / 10);
        assert(dec_bytes_val(two) == (n / 10) * 10 + n % 10);
        assert(n as int == (n as int / 10) * 10 + (n as int % 10));
    } else {
        assert(d.drop_last() =~= seq![(48 + n / 100) as u8, (48 + (n / 10) % 10) as u8]);
        assert(d.drop_last().drop_last() =~= seq![(48 + n / 100) as u8]);
        assert(d.drop_last().drop_last().drop_last() =~= Seq::<u8>::empty());
        assert(dec_bytes_val(d.drop_last().drop_last()) == n / 100);
        assert(dec_bytes_val(d.drop_last()) == (n / 100) * 10 + (n / 10) % 10);
        assert((n as int / 100) * 10 + ((n as int / 10) % 10) == n as int / 10);
        assert(dec_bytes_val(d) == (n as int / 10) * 10 + n % 10);
        assert(n as int == (n as int / 10) * 10 + (n as int % 10));
    }
}

/// Appends the decimal digits of `n`.
pub fn push_dec_u8(buf: &mut Vec<u8>, n: u8)
    ensures
        final(buf)@ =~= old(buf)@ + dec_u8(n),
{
    if n < 10 {
        buf.push(48 + n);
    } else if n < 100 {
        buf.push(48 + n / 10);
        buf.push(48 + n % 10);
    } else {
        buf.push(48 + n / 100);
        buf.push(48 + (n / 10) % 10);
        buf.push(48 + n % 10);
    }
}

/// Appends `[a,b]`.
fn push_pair(buf: &mut Vec<u8>, p: (u8, u8))
    ensures
        final(buf)@ =~= old(buf)@ + emit_pair(p),
{
    buf.push(91);
    push_dec_u8(buf, p.0);
    buf.push(44);
    push_dec_u8(buf, p.1);
    buf.push(93);
}

proof fn lemma_emit_pairs_split(l: Seq<(u8, u8)>, k: int)
    requires
        0 < k < l.len(),
    ensures
        emit_pairs(l) =~= emit_pairs(l.subrange(0, k)) + seq![44u8] + emit_pairs(l.skip(k)),
    decreases k,
{
    if k == 1 {
        assert(l.subrange(0, 1) =~= seq![l[0]]);
        assert(emit_pairs(seq![l[0]]) == emit_pair(l[0]));
    } else {
        lemma_emit_pairs_split(l.skip(1), k - 1);
        assert(l.skip(1).subrange(0, k - 1) =~= l.subrange(1, k));
        assert(l.skip(1).skip(k - 1) =~= l.skip(k));
        assert(l.subrange(0, k).skip(1) =~= l.subrange(1, k));
        assert(emit_pairs(l.subrange(0, k)) =~= emit_pair(l[0]) + seq![44u8] + emit_pairs(
            l.subrange(1, k),
        ));
    }
}

proof fn lemma_emit_nums_split(l: Seq<u8>, k: int)
    requires
        0 < k < l.len(),
    ensures
        emit_nums(l) =~= emit_nums(l.subrange(0, k)) + seq![44u8] + emit_nums(l.skip(k)),
    decreases k,
{
    if k == 1 {
        assert(l.subrange(0, 1) =~= seq![l[0]]);
        assert(emit_nums(seq![l[0]]) == dec_u8(l[0]));
    } else {
        lemma_emit_nums_split(l.skip(1), k - 1);
        assert(l.skip(1).subrange(0, k - 1) =~= l.subrange(1, k));
        assert(l.skip(1).skip(k - 1) =~= l.skip(k));
        assert(l.subrange(0, k).skip(1) =~= l.subrange(1, k));
        assert(emit_nums(l.subrange(0, k)) =~= dec_u8(l[0]) + seq![44u8] + emit_nums(
            l.subrange(1, k),
        ));
    }
}

/// Appends the comma-separated pair list.
fn push_pairs(buf: &mut Vec<u8>, l: &Vec<(u8, u8)>)
    ensures
        final(buf)@ =~= old(buf)@ + emit_pairs(l@),
{
    let mut i: usize = 0;
    while i < l.len()
        invariant
            i <= l@.len(),
            buf@ =~= old(buf)@ + emit_pairs(l@.subrange(0, i as int)),
        decreases l@.len() - i,
    {
        if i > 0 {
            buf.push(44);
        }
        push_pair(buf, l[i]);
        proof {
            if i == 0 {
                assert(l@.subrange(0, 1) =~= seq![l@[0]]);
                assert(emit_pairs(l@.subrange(0, 1)) == emit_pair(l@[0]));
                assert(buf@ =~= old(buf)@ + emit_pairs(l@.subrange(0, 1)));
            } else {
                assert(l@.subrange(0, i + 1).subrange(0, i as int) =~= l@.subrange(0, i as int));
                assert(l@.subrange(0, i + 1).skip(i as int) =~= seq![l@[i as int]]);
                lemma_emit_pairs_split(l@.subrange(0, i + 1), i as int);
                assert(emit_pairs(seq![l@[i as int]]) == emit_pair(l@[i as int]));
                assert(buf@ =~= old(buf)@ + emit_pairs(l@.subrange(0, i + 1)));
            }
        }
        i = i + 1;
    }
    proof {
        assert(l@.subrange(0, l@.len() as int) =~= l@);
    }
}

/// Appends the comma-separated number list.
fn push_nums(buf: &mut Vec<u8>, l: &Vec<u8>)
    ensures
        final(buf)@ =~= old(buf)@ + emit_nums(l@),
{
    let mut i: usize = 0;
    while i < l.len()
        invariant
            i <= l@.len(),
            buf@ =~= old(buf)@ + emit_nums(l@.subrange(0, i as int)),
        decreases l@.len() - i,
    {
        if i > 0 {
            buf.push(44);
        }
        push_dec_u8(buf, l[i]);
        proof {
            if i == 0 {
                assert(l@.subrange(0, 1) =~= seq![l@[0]]);
                assert(emit_nums(l@.subrange(0, 1)) == dec_u8(l@[0]));
                assert(buf@ =~= old(buf)@ + emit_nums(l@.subrange(0, 1)));
            } else {
                lemma_emit_nums_split(l@.subrange(0, i + 1), i as int);
                assert(l@.subrange(0, i + 1).subrange(0, i as int) =~= l@.subrange(0, i as int));
                assert(l@.subrange(0, i + 1).skip(i as int) =~= seq![l@[i as int]]);
                assert(emit_nums(seq![l@[i as int]]) == dec_u8(l@[i as int]));
                assert(buf@ =~= old(buf)@ + emit_nums(l@.subrange(0, i + 1)));
            }
        }
        i = i + 1;
    }
    proof {
        assert(l@.subrange(0, l@.len() as int) =~= l@);
    }
}

/// Appends the bytes of an ASCII literal.
fn push_lit(buf: &mut Vec<u8>, lit: &str)
    requires
        lit@ =~= lit@.map_values(|c: char| c as u8).map_values(|b: u8| b as char),
    ensures
        final(buf)@ =~= old(buf)@ + lit@.map_values(|c: char| c as u8),
{
    let v = crate::utils::chars_of(lit);
    let mut i: usize = 0;
    while i < v.len()
        invariant
            i <= v@.len(),
            v@ == lit@,
            lit@ =~= lit@.map_values(|c: char| c as u8).map_values(|b: u8| b as char),
            buf@ =~= old(buf)@ + lit@.map_values(|c: char| c as u8).subrange(0, i as int),
        decreases v@.len() - i,
    {
        let c = v[i];
        let cu = c as u32;
        if cu < 256 {
            buf.push(cu as u8);
            proof {
                assert(lit@.map_values(|c: char| c as u8)[i as int] == lit@[i as int] as u8);
                assert(buf@ =~= old(buf)@ + lit@.map_values(|c: char| c as u8).subrange(
                    0,
                    i + 1,
                ));
            }
        } else {
            proof {
                let m = lit@.map_values(|c: char| c as u8);
                assert(m.map_values(|b: u8| b as char)[i as int] == lit@[i as int]);
                assert((lit@[i as int] as u8) as char == lit@[i as int]);
                assert(false);
            }
        }
        i = i + 1;
    }
    proof {
        let m = lit@.map_values(|c: char| c as u8);
        assert(m.subrange(0, m.len() as int) =~= m);
    }
}

/// The first position at or after `pos` that does not hold a digit.
pub open spec fn digits_end(s: Seq<u8>, pos: int) -> int
    decreases s.len() - pos,
{
    if 0 <= pos < s.len() && is_dec_byte(s[pos]) {
        digits_end(s, pos + 1)
    } else {
        pos
    }
}

/// A greedy read of an 8-bit decimal number.
pub open spec fn spec_parse_dec(s: Seq<u8>, pos: int) -> Option<(u8, int)> {
    let e = digits_end(s, pos);
    if e == pos {
        None
    } else if dec_bytes_val(s.subrange(pos, e)) <= 255 {
        Some((dec_bytes_val(s.subrange(pos, e)) as u8, e))
    } else {
        None
    }
}

/// A read of `[a,b]`.
pub open spec fn spec_parse_pair(s: Seq<u8>, pos: int) -> Option<((u8, u8), int)> {
    if 0 <= pos < s.len() && s[pos] == 91 {
        match spec_parse_dec(s, pos + 1) {
            None => None,
            Some((a, e1)) => {
                if e1 < s.len() && s[e1] == 44 {
                    match spec_parse_dec(s, e1 + 1) {
                        None => None,
                        Some((b, e2)) => {
                            if e2 < s.len() && s[e2] == 93 {
                                Some(((a, b), e2 + 1))
                            } else {
                                None
                            }
                        },
                    }
                } else {
                    None
                }
            },
        }
    } else {
        None
    }
}

/// A greedy read of a comma-separated pair list.
pub open spec fn spec_parse_pairs(s: Seq<u8>, pos: int) -> Option<(Seq<(u8, u8)>, int)>
    decreases s.len() - pos,
{
    if pos < 0 || pos > s.len() {
        None
    } else {
        match spec_parse_pair(s, pos) {
            None => Some((Seq::empty(), pos)),
            Some((p, e)) => {
                if e <= pos || e > s.len() {
                    None
                } else if e < s.len() && s[e] == 44 {
                    match spec_parse_pairs(s, e + 1) {
                        None => None,
                        Some((rest, e2)) => {
                            if rest.len() >= 1 {
                                Some((seq![p] + rest, e2))
                            } else {
                                None
                            }
                        },
                    }
                } else {
                    Some((seq![p], e))
                }
            },
        }
    }
}

/// A greedy read of a comma-separated number list.
pub open spec fn spec_parse_nums(s: Seq<u8>, pos: int) -> Option<(Seq<u8>, int)>
    decreases s.len() - pos,
{
    if pos < 0 || pos > s.len() {
        None
    } else {
        match spec_parse_dec(s, pos) {
            None => Some((Seq::empty(), pos)),
            Some((n, e)) => {
                if e <= pos || e > s.len() {
                    None
                } else if e < s.len() && s[e] == 44 {
                    match spec_parse_nums(s, e + 1) {
                        None => None,
                        Some((rest, e2)) => {
                            if rest.len() >= 1 {
                                Some((seq![n] + rest, e2))
                            } else {
                                None
                            }
                        },
                    }
                } else {
                    Some((seq![n], e))
                }
            },
        }
    }
}

/// A read of a fixed byte pattern.
pub open spec fn spec_expect(s: Seq<u8>, pos: int, lit: Seq<u8>) -> Option<int> {
    if 0 <= pos && pos + lit.len() <= s.len() && s.subrange(pos, pos + lit.len()) == lit {
        Some(pos + lit.len())
    } else {
        None
    }
}

/// The state a saved document holds, read with the saver's fixed key order.
pub open spec fn spec_parse_state(s: Seq<u8>) -> Option<StateV> {
    match spec_expect(s, 0, "{\"colors\":[["@.map_values(|c: char| c as u8)) {
        None => None,
        Some(p1) => match spec_parse_pairs(s, p1) {
            None => None,
            Some((chroma, p2)) => match spec_expect(s, p2, "],["@.map_values(|c: char| c as u8)) {
                None => None,
                Some(p3) => match spec_parse_nums(s, p3) {
                    None => None,
                    Some((value, p4)) => match spec_expect(
                        s,
                        p4,
                        "]],\"color\":"@.map_values(|c: char| c as u8),
                    ) {
                        None => None,
                        Some(p5) => match spec_parse_pair(s, p5) {
                            None => None,
                            Some((color, p6)) => match spec_expect(
                                s,
                                p6,
                                ",\"brightness\":"@.map_values(|c: char| c as u8),
                            ) {
                                None => None,
                                Some(p7) => match spec_parse_dec(s, p7) {
                                    None => None,
                                    Some((brightness, p8)) => match spec_expect(
                                        s,
                                        p8,
                                        ",\"effect\":"@.map_values(|c: char| c as u8),
                                    ) {
                                        None => None,
                                        Some(p9) => match spec_parse_dec(s, p9) {
                                            None => None,
                                            Some((effect, p10)) => match spec_expect(
                                                s,
                                                p10,
                                                ",\"speed\":"@.map_values(|c: char| c as u8),
                                            ) {
                                                None => None,
                                                Some(p11) => match spec_parse_dec(s, p11) {
                                                    None => None,
                                                    Some((speed, p12)) => {
                                                        if p12 + 1 == s.len() && p12 < s.len()
                                                            && s[p12] == 125 {
                                                            Some(
                                                                StateV {
                                                                    chroma,
                                                                    value,
                                                                    color,
                                                                    brightness,
                                                                    effect,
                                                                    speed,
                                                                },
                                                            )
                                                        } else {
                                                            None
                                                        }
                                                    },
                                                },
                                            },
                                        },
                                    },
                                },
                            },
                        },
                    },
                },
            },
        },
    }
}

proof fn lemma_digits_end_run(s: Seq<u8>, pos: int, k: int)
    requires
        0 <= pos <= k <= s.len(),
        forall|j: int| pos <= j < k ==> is_dec_byte(#[trigger] s[j]),
        k == s.len() || !is_dec_byte(s[k]),
    ensures
        digits_end(s, pos) == k,
    decreases k - pos,
{
    if pos < k {
        lemma_digits_end_run(s, pos + 1, k);
    }
}

/// Reading where the digits of `n` stand, with no digit following, yields
/// `n`.
proof fn lemma_parse_dec_at(s: Seq<u8>, pos: int, n: u8)
    requires
        0 <= pos,
        pos + dec_u8(n).len() <= s.len(),
        s.subrange(pos, pos + dec_u8(n).len()) == dec_u8(n),
        pos + dec_u8(n).len() == s.len() || !is_dec_byte(s[pos + dec_u8(n).len()]),
    ensures
        spec_parse_dec(s, pos) == Some((n, pos + dec_u8(n).len())),
{
    lemma_dec_u8(n);
    let l = dec_u8(n).len() as int;
    assert(forall|j: int|
        pos <= j < pos + l ==> is_dec_byte(#[trigger] s[j])) by {
        assert(forall|j: int|
            pos <= j < pos + l ==> s[j] == dec_u8(n)[j - pos] && is_dec_byte(
                #[trigger] s[j],
            ));
    }
    lemma_digits_end_run(s, pos, pos + l);
    assert(s.subrange(pos, pos + l) == dec_u8(n));
    assert(dec_bytes_val(s.subrange(pos, pos + l)) == n);
}

/// Reading where an emitted pair stands yields that pair.
proof fn lemma_parse_pair_at(s: Seq<u8>, pos: int, p: (u8, u8))
    requires
        0 <= pos,
        pos + emit_pair(p).len() <= s.len(),
        s.subrange(pos, pos + emit_pair(p).len()) == emit_pair(p),
    ensures
        spec_parse_pair(s, pos) == Some((p, pos + emit_pair(p).len())),
{
    let ep = emit_pair(p);
    let la = dec_u8(p.0).len() as int;
    let lb = dec_u8(p.1).len() as int;
    lemma_dec_u8(p.0);
    lemma_dec_u8(p.1);
    assert(ep.len() == 3 + la + lb);
    assert forall|j: int| 0 <= j < ep.len() implies s[pos + j] == #[trigger] ep[j] by {
        assert(s.subrange(pos, pos + ep.len())[j] == s[pos + j]);
    }
    assert(ep[0] == 91);
    assert(s[pos] == 91);
    assert(s.subrange(pos + 1, pos + 1 + la) =~= dec_u8(p.0)) by {
        assert forall|j: int|
            0 <= j < la implies s.subrange(pos + 1, pos + 1 + la)[j] == dec_u8(p.0)[j] by {
            assert(s.subrange(pos + 1, pos + 1 + la)[j] == s[pos + 1 + j]);
            assert(ep[1 + j] == dec_u8(p.0)[j]);
        }
    }
    assert(ep[1 + la] == 44);
    assert(s[pos + 1 + la] == 44);
    assert(!is_dec_byte(44u8));
    lemma_parse_dec_at(s, pos + 1, p.0);
    assert(s.subrange(pos + 2 + la, pos + 2 + la + lb) =~= dec_u8(p.1)) by {
        assert forall|j: int|
            0 <= j < lb implies s.subrange(pos + 2 + la, pos + 2 + la + lb)[j] == dec_u8(
                p.1,
            )[j] by {
            assert(s.subrange(pos + 2 + la, pos + 2 + la + lb)[j] == s[pos + 2 + la + j]);
            assert(ep[2 + la + j] == dec_u8(p.1)[j]);
        }
    }
    assert(ep[2 + la + lb] == 93);
    assert(s[pos + 2 + la + lb] == 93);
    assert(!is_dec_byte(93u8));
    lemma_parse_dec_at(s, pos + 2 + la, p.1);
    assert(spec_parse_pair(s, pos) == Some((p, pos + 3 + la + lb)));
}

/// Reading where an emitted pair list stands, terminated by `]`, yields
/// that list.
proof fn lemma_parse_pairs_at(s: Seq<u8>, pos: int, l: Seq<(u8, u8)>)
    requires
        0 <= pos,
        pos + emit_pairs(l).len() < s.len(),
        s.subrange(pos, pos + emit_pairs(l).len()) == emit_pairs(l),
        s[pos + emit_pairs(l).len()] == 93,
    ensures
        spec_parse_pairs(s, pos) == Some((l, pos + emit_pairs(l).len())),
    decreases l.len(),
{
    if l.len() == 0 {
        assert(s[pos] == 93);
        assert(spec_parse_pair(s, pos) is None);
    } else if l.len() == 1 {
        assert(emit_pairs(l) == emit_pair(l[0]));
        lemma_parse_pair_at(s, pos, l[0]);
        let e = pos + emit_pair(l[0]).len();
        assert(s[e] == 93);
        assert(spec_parse_pairs(s, pos) == Some((seq![l[0]], e)));
        assert(seq![l[0]] =~= l);
    } else {
        let ep = emit_pair(l[0]);
        let rest = emit_pairs(l.skip(1));
        let el = emit_pairs(l);
        assert(el == ep + seq![44u8] + rest);
        assert forall|j: int| 0 <= j < el.len() implies s[pos + j] == #[trigger] el[j] by {
            assert(s.subrange(pos, pos + el.len())[j] == s[pos + j]);
        }
        assert(s.subrange(pos, pos + ep.len()) =~= ep) by {
            assert forall|j: int|
                0 <= j < ep.len() implies s.subrange(pos, pos + ep.len())[j] == ep[j] by {
                assert(s.subrange(pos, pos + ep.len())[j] == s[pos + j]);
                assert(el[j] == ep[j]);
            }
        }
        lemma_parse_pair_at(s, pos, l[0]);
        let e = pos + ep.len();
        assert(el[ep.len() as int] == 44);
        assert(s[e] == 44);
        assert(s.subrange(e + 1, e + 1 + rest.len()) =~= rest) by {
            assert forall|j: int|
                0 <= j < rest.len() implies s.subrange(e + 1, e + 1 + rest.len())[j]
                == rest[j] by {
                assert(s.subrange(e + 1, e + 1 + rest.len())[j] == s[e + 1 + j]);
                assert(el[ep.len() + 1 + j] == rest[j]);
            }
        }
        assert(e + 1 + rest.len() == pos + el.len());
        assert(s[e + 1 + rest.len()] == 93);
        lemma_parse_pairs_at(s, e + 1, l.skip(1));
        assert(l.skip(1).len() >= 1);
        assert(seq![l[0]] + l.skip(1) =~= l);
    }
}

/// Reading where an emitted number list stands, terminated by `]`, yields
/// that list.
proof fn lemma_parse_nums_at(s: Seq<u8>, pos: int, l: Seq<u8>)
    requires
        0 <= pos,
        pos + emit_nums(l).len() < s.len(),
        s.subrange(pos, pos + emit_nums(l).len()) == emit_nums(l),
        s[pos + emit_nums(l).len()] == 93,
    ensures
        spec_parse_nums(s, pos) == Some((l, pos + emit_nums(l).len())),
    decreases l.len(),
{
    if l.len() == 0 {
        assert(s[pos] == 93);
        assert(!is_dec_byte(93u8));
        assert(digits_end(s, pos) == pos);
        assert(spec_parse_dec(s, pos) is None);
    } else if l.len() == 1 {
        assert(emit_nums(l) == dec_u8(l[0]));
        lemma_dec_u8(l[0]);
        assert(!is_dec_byte(93u8));
        lemma_parse_dec_at(s, pos, l[0]);
        let e = pos + dec_u8(l[0]).len();
        assert(s[e] == 93);
        assert(spec_parse_nums(s, pos) == Some((seq![l[0]], e)));
        assert(seq![l[0]] =~= l);
    } else {
        let en = dec_u8(l[0]);
        let rest = emit_nums(l.skip(1));
        let el = emit_nums(l);
        assert(el == en + seq![44u8] + rest);
        lemma_dec_u8(l[0]);
        assert forall|j: int| 0 <= j < el.len() implies s[pos + j] == #[trigger] el[j] by {
            assert(s.subrange(pos, pos + el.len())[j] == s[pos + j]);
        }
        assert(s.subrange(pos, pos + en.len()) =~= en) by {
            assert forall|j: int|
                0 <= j < en.len() implies s.subrange(pos, pos + en.len())[j] == en[j] by {
                assert(s.subrange(pos, pos + en.len())[j] == s[pos + j]);
                assert(el[j] == en[j]);
            }
        }
        assert(el[en.len() as int] == 44);
        assert(s[pos + en.len()] == 44);
        assert(!is_dec_byte(44u8));
        lemma_parse_dec_at(s, pos, l[0]);
        let e = pos + en.len();
        assert(s.subrange(e + 1, e + 1 + rest.len()) =~= rest) by {
            assert forall|j: int|
                0 <= j < rest.len() implies s.subrange(e + 1, e + 1 + rest.len())[j]
                == rest[j] by {
                assert(s.subrange(e + 1, e + 1 + rest.len())[j] == s[e + 1 + j]);
                assert(el[en.len() + 1 + j] == rest[j]);
            }
        }
        assert(e + 1 + rest.len() == pos + el.len());
        assert(s[e + 1 + rest.len()] == 93);
        lemma_parse_nums_at(s, e + 1, l.skip(1));
        assert(l.skip(1).len() >= 1);
        assert(seq![l[0]] + l.skip(1) =~= l);
    }
}

proof fn lemma_digits_end_props(s: Seq<u8>, pos: int)
    requires
        0 <= pos <= s.len(),
    ensures
        pos <= digits_end(s, pos) <= s.len(),
        forall|j: int| pos <= j < digits_end(s, pos) ==> is_dec_byte(#[trigger] s[j]),
        digits_end(s, pos) == s.len() || !is_dec_byte(s[digits_end(s, pos)]),
    decreases s.len() - pos,
{
    if pos < s.len() && is_dec_byte(s[pos]) {
        lemma_digits_end_props(s, pos + 1);
    }
}

proof fn lemma_digits_end_skip(s: Seq<u8>, pos: int, i: int)
    requires
        0 <= pos <= i <= s.len(),
        forall|j: int| pos <= j < i ==> is_dec_byte(#[trigger] s[j]),
    ensures
        digits_end(s, pos) == digits_end(s, i),
    decreases i - pos,
{
    if pos < i {
        lemma_digits_end_skip(s, pos + 1, i);
    }
}

proof fn lemma_dec_bytes_prefix_exceeds(t: Seq<u8>, k: int)
    requires
        0 <= k <= t.len(),
        dec_bytes_val(t.subrange(0, k)) > 255,
        forall|i: int| 0 <= i < t.len() ==> is_dec_byte(#[trigger] t[i]),
    ensures
        dec_bytes_val(t) > 255,
    decreases t.len() - k,
{
    if k == t.len() {
        assert(t.subrange(0, k) =~= t);
    } else {
        assert(t.subrange(0, k + 1).drop_last() =~= t.subrange(0, k));
        assert(t.subrange(0, k + 1).last() == t[k]);
        lemma_dec_bytes_prefix_exceeds(t, k + 1);
    }
}

/// Reads an 8-bit decimal number.
pub fn parse_dec_bytes(s: &[u8], pos: usize) -> (r: Option<(u8, usize)>)
    requires
        pos <= s@.len(),
    ensures
        match r {
            Some((n, e)) => spec_parse_dec(s@, pos as int) == Some((n, e as int)) && pos < e
                <= s@.len(),
            None => spec_parse_dec(s@, pos as int) is None,
        },
{
    proof {
        lemma_digits_end_props(s@, pos as int);
    }
    let ghost ge = digits_end(s@, pos as int);
    let mut val: u32 = 0;
    let mut i: usize = pos;
    while i < s.len() && 48 <= s[i] && s[i] <= 57
        invariant
            pos <= i <= s@.len(),
            ge == digits_end(s@, pos as int),
            pos <= ge <= s@.len(),
            forall|j: int| pos <= j < ge ==> is_dec_byte(#[trigger] s@[j]),
            ge == s@.len() || !is_dec_byte(s@[ge]),
            forall|j: int| pos <= j < i ==> is_dec_byte(#[trigger] s@[j]),
            i <= ge,
            val <= 255,
            val == dec_bytes_val(s@.subrange(pos as int, i as int)),
        decreases s@.len() - i,
    {
        proof {
            lemma_digits_end_skip(s@, pos as int, i as int);
            assert(digits_end(s@, i as int) > i);
        }
        let next: u32 = val * 10 + ((s[i] - 48) as u32);
        proof {
            assert(s@.subrange(pos as int, i + 1).drop_last() =~= s@.subrange(
                pos as int,
                i as int,
            ));
            assert(s@.subrange(pos as int, i + 1).last() == s@[i as int]);
        }
        if next > 255 {
            proof {
                let t = s@.subrange(pos as int, ge);
                assert(t.subrange(0, i + 1 - pos) =~= s@.subrange(pos as int, i + 1));
                assert(forall|j: int| 0 <= j < t.len() ==> is_dec_byte(#[trigger] t[j]));
                lemma_dec_bytes_prefix_exceeds(t, i + 1 - pos);
                assert(ge != pos);
            }
            return None;
        }
        val = next;
        i = i + 1;
        proof {
            if i < s@.len() && is_dec_byte(s@[i as int]) {
                lemma_digits_end_skip(s@, pos as int, i as int);
                assert(digits_end(s@, i as int) > i);
            }
        }
    }
    proof {
        lemma_digits_end_skip(s@, pos as int, i as int);
        assert(digits_end(s@, i as int) == i);
        assert(ge == i);
    }
    if i == pos {
        return None;
    }
    Some((val as u8, i))
}

/// Reads `[a,b]`.
pub fn parse_pair_bytes(s: &[u8], pos: usize) -> (r: Option<((u8, u8), usize)>)
    requires
        pos <= s@.len(),
    ensures
        match r {
            Some((p, e)) => spec_parse_pair(s@, pos as int) == Some((p, e as int)) && pos < e
                <= s@.len(),
            None => spec_parse_pair(s@, pos as int) is None,
        },
{
    if pos >= s.len() || s[pos] != 91 {
        return None;
    }
    let (a, e1) = match parse_dec_bytes(s, pos + 1) {
        Some(x) => x,
        None => {
            return None;
        },
    };
    if e1 >= s.len() || s[e1] != 44 {
        return None;
    }
    let (b, e2) = match parse_dec_bytes(s, e1 + 1) {
        Some(x) => x,
        None => {
            return None;
        },
    };
    if e2 >= s.len() || s[e2] != 93 {
        return None;
    }
    Some(((a, b), e2 + 1))
}

/// What remains to be read of a pair list: how a read from `cur`, with
/// `acc` already collected, settles the read from `pos`.
pub open spec fn pairs_continue(
    s: Seq<u8>,
    pos: int,
    acc: Seq<(u8, u8)>,
    cur: int,
    need: bool,
) -> bool {
    match spec_parse_pairs(s, cur) {
        None => spec_parse_pairs(s, pos) is None,
        Some((rest, e)) => {
            if need && rest.len() == 0 {
                spec_parse_pairs(s, pos) is None
            } else {
                spec_parse_pairs(s, pos) == Some((acc + rest, e))
            }
        },
    }
}

/// Reads a comma-separated pair list.
pub fn parse_pairs_bytes(s: &[u8], pos: usize) -> (r: Option<(Vec<(u8, u8)>, usize)>)
    requires
        pos <= s@.len(),
    ensures
        match r {
            Some((l, e)) => spec_parse_pairs(s@, pos as int) == Some((l@, e as int)) && pos <= e
                <= s@.len(),
            None => spec_parse_pairs(s@, pos as int) is None,
        },
{
    let mut acc: Vec<(u8, u8)> = Vec::new();
    let mut cur: usize = pos;
    let mut need = false;
    proof {
        assert(pairs_continue(s@, pos as int, acc@, cur as int, need));
    }
    loop
        invariant
            pos <= cur <= s@.len(),
            pairs_continue(s@, pos as int, acc@, cur as int, need),
            need ==> cur > pos,
        ensures
            match spec_parse_pairs(s@, pos as int) {
                Some((l, e)) => acc@ == l && cur == e,
                None => false,
            } || spec_parse_pairs(s@, pos as int) is None,
        decreases s@.len() - cur + 1,
    {
        match parse_pair_bytes(s, cur) {
            None => {
                proof {
                    assert(spec_parse_pairs(s@, cur as int) == Some(
                        (Seq::<(u8, u8)>::empty(), cur as int),
                    ));
                    if !need {
                        assert(acc@ + Seq::<(u8, u8)>::empty() =~= acc@);
                    }
                }
                if need {
                    return None;
                } else {
                    return Some((acc, cur));
                }
            },
            Some((p, e)) => {
                let ghost acc0 = acc@;
                acc.push(p);
                if e < s.len() && s[e] == 44 {
                    proof {
                        let inner = spec_parse_pairs(s@, e + 1);
                        match inner {
                            None => {
                                assert(spec_parse_pairs(s@, cur as int) is None);
                            },
                            Some((rest2, e2)) => {
                                if rest2.len() == 0 {
                                    assert(spec_parse_pairs(s@, cur as int) is None);
                                } else {
                                    assert(spec_parse_pairs(s@, cur as int) == Some(
                                        (seq![p] + rest2, e2),
                                    ));
                                    assert(acc0 + (seq![p] + rest2) =~= (acc0.push(p)) + rest2);
                                }
                            },
                        }
                        assert(pairs_continue(s@, pos as int, acc@, e + 1, true));
                    }
                    cur = e + 1;
                    need = true;
                } else {
                    proof {
                        assert(spec_parse_pairs(s@, cur as int) == Some((seq![p], e as int)));
                        assert(acc0 + seq![p] =~= acc0.push(p));
                    }
                    return Some((acc, e));
                }
            },
        }
    }
}

/// What remains to be read of a number list.
pub open spec fn nums_continue(s: Seq<u8>, pos: int, acc: Seq<u8>, cur: int, need: bool) -> bool {
    match spec_parse_nums(s, cur) {
        None => spec_parse_nums(s, pos) is None,
        Some((rest, e)) => {
            if need && rest.len() == 0 {
                spec_parse_nums(s, pos) is None
            } else {
                spec_parse_nums(s, pos) == Some((acc + rest, e))
            }
        },
    }
}

/// Reads a comma-separated number list.
pub fn parse_nums_bytes(s: &[u8], pos: usize) -> (r: Option<(Vec<u8>, usize)>)
    requires
        pos <= s@.len(),
    ensures
        match r {
            Some((l, e)) => spec_parse_nums(s@, pos as int) == Some((l@, e as int)) && pos <= e
                <= s@.len(),
            None => spec_parse_nums(s@, pos as int) is None,
        },
{
    let mut acc: Vec<u8> = Vec::new();
    let mut cur: usize = pos;
    let mut need = false;
    proof {
        assert(nums_continue(s@, pos as int, acc@, cur as int, need));
    }
    loop
        invariant
            pos <= cur <= s@.len(),
            nums_continue(s@, pos as int, acc@, cur as int, need),
            need ==> cur > pos,
        ensures
            match spec_parse_nums(s@, pos as int) {
                Some((l, e)) => acc@ == l && cur == e,
                None => false,
            } || spec_parse_nums(s@, pos as int) is None,
        decreases s@.len() - cur + 1,
    {
        match parse_dec_bytes(s, cur) {
            None => {
                proof {
                    assert(spec_parse_nums(s@, cur as int) == Some(
                        (Seq::<u8>::empty(), cur as int),
                    ));
                    if !need {
                        assert(acc@ + Seq::<u8>::empty() =~= acc@);
                    }
                }
                if need {
                    return None;
                } else {
                    return Some((acc, cur));
                }
            },
            Some((n, e)) => {
                let ghost acc0 = acc@;
                acc.push(n);
                if e < s.len() && s[e] == 44 {
                    proof {
                        let inner = spec_parse_nums(s@, e + 1);
                        match inner {
                            None => {
                                assert(spec_parse_nums(s@, cur as int) is None);
                            },
                            Some((rest2, e2)) => {
                                if rest2.len() == 0 {
                                    assert(spec_parse_nums(s@, cur as int) is None);
                                } else {
                                    assert(spec_parse_nums(s@, cur as int) == Some(
                                        (seq![n] + rest2, e2),
                                    ));
                                    assert(acc0 + (seq![n] + rest2) =~= (acc0.push(n)) + rest2);
                                }
                            },
                        }
                        assert(nums_continue(s@, pos as int, acc@, e + 1, true));
                    }
                    cur = e + 1;
                    need = true;
                } else {
                    proof {
                        assert(spec_parse_nums(s@, cur as int) == Some((seq![n], e as int)));
                        assert(acc0 + seq![n] =~= acc0.push(n));
                    }
                    return Some((acc, e));
                }
            },
        }
    }
}

/// The bytes of an ASCII literal.
fn lit_bytes(lit: &str) -> (r: Vec<u8>)
    requires
        lit@ =~= lit@.map_values(|c: char| c as u8).map_values(|b: u8| b as char),
    ensures
        r@ == lit@.map_values(|c: char| c as u8),
{
    let mut v: Vec<u8> = Vec::new();
    push_lit(&mut v, lit);
    v
}

/// Reads a fixed ASCII pattern.
fn expect_lit(s: &[u8], pos: usize, lit: &str) -> (r: Option<usize>)
    requires
        pos <= s@.len(),
        lit@ =~= lit@.map_values(|c: char| c as u8).map_values(|b: u8| b as char),
    ensures
        match r {
            Some(e) => spec_expect(s@, pos as int, lit@.map_values(|c: char| c as u8)) == Some(
                e as int,
            ) && pos <= e <= s@.len(),
            None => spec_expect(s@, pos as int, lit@.map_values(|c: char| c as u8)) is None,
        },
{
    let lb = lit_bytes(lit);
    if s.len() - pos < lb.len() {
        return None;
    }
    let mut i: usize = 0;
    while i < lb.len()
        invariant
            i <= lb@.len(),
            pos + lb@.len() <= s@.len(),
            lb@ == lit@.map_values(|c: char| c as u8),
            forall|j: int| 0 <= j < i ==> s@[pos + j] == lb@[j],
        decreases lb@.len() - i,
    {
        let n = s.len();
        proof {
            assert(pos + i < n);
        }
        if s[pos + i] != lb[i] {
            proof {
                assert(s@.subrange(pos as int, pos + lb@.len())[i as int] == s@[pos + i]);
                assert(s@.subrange(pos as int, pos + lb@.len()) != lb@);
            }
            return None;
        }
        i = i + 1;
    }
    proof {
        assert(s@.subrange(pos as int, pos + lb@.len()) =~= lb@) by {
            assert forall|j: int|
                0 <= j < lb@.len() implies #[trigger] s@.subrange(pos as int, pos + lb@.len())[j]
                == lb@[j] by {
                assert(s@.subrange(pos as int, pos + lb@.len())[j] == s@[pos + j]);
            }
        }
    }
    Some(pos + lb.len())
}

/// A middle piece of a concatenation is recovered by `subrange`, and the
/// concatenation regroups to put that piece into the prefix.
proof fn lemma_concat_mid(a: Seq<u8>, x: Seq<u8>, u: Seq<u8>, s: Seq<u8>)
    requires
        s == a + (x + u),
    ensures
        s.subrange(a.len() as int, a.len() as int + x.len() as int) =~= x,
        s =~= (a + x) + u,
        s.len() == a.len() + x.len() + u.len(),
{
    assert forall|j: int|
        0 <= j < x.len() implies s.subrange(a.len() as int, a.len() as int + x.len() as int)[j]
        == x[j] by {
        assert(s.subrange(a.len() as int, a.len() as int + x.len() as int)[j] == s[a.len() as int
            + j]);
        assert(s[a.len() as int + j] == (x + u)[j]);
    }
}

/// Round trip: a saved state document reads back as exactly the state it
/// was saved from.
#[verifier::rlimit(100)]
pub proof fn lemma_save_load_roundtrip(v: StateV)
    ensures
        spec_parse_state(emit_state(v)) == Some(v),
{
    reveal_strlit("{\"colors\":[[");
    reveal_strlit("],[");
    reveal_strlit("]],\"color\":");
    reveal_strlit(",\"brightness\":");
    reveal_strlit(",\"effect\":");
    reveal_strlit(",\"speed\":");
    let l1 = "{\"colors\":[["@.map_values(|c: char| c as u8);
    let l2 = "],["@.map_values(|c: char| c as u8);
    let l3 = "]],\"color\":"@.map_values(|c: char| c as u8);
    let l4 = ",\"brightness\":"@.map_values(|c: char| c as u8);
    let l5 = ",\"effect\":"@.map_values(|c: char| c as u8);
    let l6 = ",\"speed\":"@.map_values(|c: char| c as u8);
    let c1 = emit_pairs(v.chroma);
    let c2 = emit_nums(v.value);
    let c3 = emit_pair(v.color);
    let d1 = dec_u8(v.brightness);
    let d2 = dec_u8(v.effect);
    let d3 = dec_u8(v.speed);
    let tail = seq![125u8];
    let s = emit_state(v);
    let r12 = tail;
    let r11 = d3 + r12;
    let r10 = l6 + r11;
    let r9 = d2 + r10;
    let r8 = l5 + r9;
    let r7 = d1 + r8;
    let r6 = l4 + r7;
    let r5 = c3 + r6;
    let r4 = l3 + r5;
    let r3 = c2 + r4;
    let r2 = l2 + r3;
    let r1 = c1 + r2;
    assert(s =~= l1 + r1);
    let a0 = l1;
    lemma_concat_mid(Seq::empty(), l1, r1, s);
    assert(s.subrange(0, l1.len() as int) =~= l1);
    let q1 = l1.len() as int;
    lemma_concat_mid(a0, c1, r2, s);
    let a1 = a0 + c1;
    let q2 = q1 + c1.len();
    lemma_concat_mid(a1, l2, r3, s);
    let a2 = a1 + l2;
    let q3 = q2 + l2.len();
    lemma_concat_mid(a2, c2, r4, s);
    let a3 = a2 + c2;
    let q4 = q3 + c2.len();
    lemma_concat_mid(a3, l3, r5, s);
    let a4 = a3 + l3;
    let q5 = q4 + l3.len();
    lemma_concat_mid(a4, c3, r6, s);
    let a5 = a4 + c3;
    let q6 = q5 + c3.len();
    lemma_concat_mid(a5, l4, r7, s);
    let a6 = a5 + l4;
    let q7 = q6 + l4.len();
    lemma_concat_mid(a6, d1, r8, s);
    let a7 = a6 + d1;
    let q8 = q7 + d1.len();
    lemma_concat_mid(a7, l5, r9, s);
    let a8 = a7 + l5;
    let q9 = q8 + l5.len();
    lemma_concat_mid(a8, d2, r10, s);
    let a9 = a8 + d2;
    let q10 = q9 + d2.len();
    lemma_concat_mid(a9, l6, r11, s);
    let a10 = a9 + l6;
    let q11 = q10 + l6.len();
    lemma_concat_mid(a10, d3, r12, s);
    let a11 = a10 + d3;
    let q12 = q11 + d3.len();
    lemma_concat_mid(a11, tail, Seq::empty(), s);
    assert(s.len() == q12 + 1);

    // The literal boundary bytes the readers stop at.
    assert(l2[0] == 93) by {
        assert(l2[0] == "],["@[0] as u8);
    }
    assert(l3[0] == 93) by {
        assert(l3[0] == "]],\"color\":"@[0] as u8);
    }
    assert(l4[0] == 44) by {
        assert(l4[0] == ",\"brightness\":"@[0] as u8);
    }
    assert(l5[0] == 44) by {
        assert(l5[0] == ",\"effect\":"@[0] as u8);
    }
    assert(l6[0] == 44) by {
        assert(l6[0] == ",\"speed\":"@[0] as u8);
    }
    assert(s[q2] == 93) by {
        assert(s.subrange(q2, q2 + l2.len())[0] == s[q2]);
    }
    assert(s[q4] == 93) by {
        assert(s.subrange(q4, q4 + l3.len())[0] == s[q4]);
    }
    assert(s[q6] == 44) by {
        assert(s.subrange(q6, q6 + l4.len())[0] == s[q6]);
    }
    assert(s[q8] == 44) by {
        assert(s.subrange(q8, q8 + l5.len())[0] == s[q8]);
    }
    assert(s[q10] == 44) by {
        assert(s.subrange(q10, q10 + l6.len())[0] == s[q10]);
    }
    assert(s[q12] == 125) by {
        assert(s.subrange(q12, q12 + 1)[0] == s[q12]);
        assert(tail[0] == 125);
    }

    assert(spec_expect(s, 0, l1) == Some(q1));
    lemma_parse_pairs_at(s, q1, v.chroma);
    assert(spec_expect(s, q2, l2) == Some(q3));
    lemma_parse_nums_at(s, q3, v.value);
    assert(spec_expect(s, q4, l3) == Some(q5));
    lemma_parse_pair_at(s, q5, v.color);
    assert(spec_expect(s, q6, l4) == Some(q7));
    assert(!is_dec_byte(44u8));
    assert(!is_dec_byte(125u8));
    lemma_parse_dec_at(s, q7, v.brightness);
    assert(spec_expect(s, q8, l5) == Some(q9));
    lemma_parse_dec_at(s, q9, v.effect);
    assert(spec_expect(s, q10, l6) == Some(q11));
    lemma_parse_dec_at(s, q11, v.speed);
    assert(spec_parse_state(s) == Some(
        StateV {
            chroma: v.chroma,
            value: v.value,
            color: v.color,
            brightness: v.brightness,
            effect: v.effect,
            speed: v.speed,
        },
    ));
    assert(StateV {
        chroma: v.chroma,
        value: v.value,
        color: v.color,
        brightness: v.brightness,
        effect: v.effect,
        speed: v.speed,
    } == v);
}

impl KeyboardState {
    /// Reads a saved state document.
    pub fn parse_state(data: &[u8]) -> (r: Option<KeyboardState>)
        ensures
            match r {
                Some(st) => spec_parse_state(data@) == Some(st@),
                None => spec_parse_state(data@) is None,
            },
    {
        proof {
            reveal_strlit("{\"colors\":[[");
            reveal_strlit("],[");
            reveal_strlit("]],\"color\":");
            reveal_strlit(",\"brightness\":");
            reveal_strlit(",\"effect\":");
            reveal_strlit(",\"speed\":");
        }
        let p1 = match expect_lit(data, 0, "{\"colors\":[[") {
            Some(p) => p,
            None => {
                return None;
            },
        };
        let (chroma, p2) = match parse_pairs_bytes(data, p1) {
            Some(x) => x,
            None => {
                return None;
            },
        };
        let p3 = match expect_lit(data, p2, "],[") {
            Some(p) => p,
            None => {
                return None;
            },
        };
        let (value, p4) = match parse_nums_bytes(data, p3) {
            Some(x) => x,
            None => {
                return None;
            },
        };
        let p5 = match expect_lit(data, p4, "]],\"color\":") {
            Some(p) => p,
            None => {
                return None;
            },
        };
        let (color, p6) = match parse_pair_bytes(data, p5) {
            Some(x) => x,
            None => {
                return None;
            },
        };
        let p7 = match expect_lit(data, p6, ",\"brightness\":") {
            Some(p) => p,
            None => {
                return None;
            },
        };
        let (brightness, p8) = match parse_dec_bytes(data, p7) {
            Some(x) => x,
            None => {
                return None;
            },
        };
        let p9 = match expect_lit(data, p8, ",\"effect\":") {
            Some(p) => p,
            None => {
                return None;
            },
        };
        let (effect, p10) = match parse_dec_bytes(data, p9) {
            Some(x) => x,
            None => {
                return None;
            },
        };
        let p11 = match expect_lit(data, p10, ",\"speed\":") {
            Some(p) => p,
            None => {
                return None;
            },
        };
        let (speed, p12) = match parse_dec_bytes(data, p11) {
            Some(x) => x,
            None => {
                return None;
            },
        };
        if !(p12 < data.len() && data.len() - p12 == 1 && data[p12] == 125) {
            return None;
        }
        let st = KeyboardState { chroma, value, color, brightness, effect, speed };
        proof {
            assert(spec_parse_state(data@) == Some(st@));
        }
        Some(st)
    }


    /// Writes the saved form of this state.
    pub fn save_state(&self) -> (r: Vec<u8>)
        ensures
            r@ == emit_state(self@),
    {
        let mut buf: Vec<u8> = Vec::new();
        proof {
            reveal_strlit("{\"colors\":[[");
            reveal_strlit("],[");
            reveal_strlit("]],\"color\":");
            reveal_strlit(",\"brightness\":");
            reveal_strlit(",\"effect\":");
            reveal_strlit(",\"speed\":");
        }
        push_lit(&mut buf, "{\"colors\":[[");
        push_pairs(&mut buf, &self.chroma);
        push_lit(&mut buf, "],[");
        push_nums(&mut buf, &self.value);
        push_lit(&mut buf, "]],\"color\":");
        push_pair(&mut buf, self.color);
        push_lit(&mut buf, ",\"brightness\":");
        push_dec_u8(&mut buf, self.brightness);
        push_lit(&mut buf, ",\"effect\":");
        push_dec_u8(&mut buf, self.effect);
        push_lit(&mut buf, ",\"speed\":");
        push_dec_u8(&mut buf, self.speed);
        buf.push(125);
        proof {
            assert(buf@ =~= emit_state(self@));
        }
        buf
    }
}

} // verus!
