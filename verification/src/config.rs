//! Keyboard configuration parsed from a VIA definition.
//!
//! The JSON document is first reduced to a [`ViaDoc`]: the name, the hex
//! vendor and product ids, the matrix dimensions, the flattened keymap
//! entries, and the flattened menu options. This module turns that document
//! into a typed [`Config`]: the LED grid, the effect list with capability
//! flags, and the valid speed and brightness ranges.

use itertools::Itertools;
use vstd::prelude::*;

use crate::consts::{
    MODE_FLAG_HAS_BRIGHTNESS, MODE_FLAG_HAS_MODE_SPECIFIC_COLOR, MODE_FLAG_HAS_PER_LED_COLOR,
    MODE_FLAG_HAS_RANDOM_COLOR, MODE_FLAG_HAS_SPEED, MODE_FLAG_MANUAL_SAVE,
};
use crate::utils::{chars_of, str_eq};

verus! {

/// Why a VIA definition was rejected.
#[derive(Clone, Copy, PartialEq, Eq, Structural, Debug)]
pub enum ConfigError {
    /// The JSON text does not describe a usable keyboard definition.
    Parse,
}

/// An immutable keyboard description.
pub struct Config {
    pub name: String,
    pub vendor_id: u16,
    pub product_id: u16,
    /// `(led_index, (row, col))`, sorted by LED index.
    pub leds: Vec<(u8, (u8, u8))>,
    /// `(name, id, flags)` for each effect the firmware offers.
    pub effects: Vec<(String, i32, u32)>,
    /// `(min, max)` of the effect speed control.
    pub speed: (u32, u32),
    /// `(min, max)` of the brightness control.
    pub brightness: (u32, u32),
    /// `(cols, rows)` of the key matrix.
    pub matrix: (u32, u32),
}

impl Clone for Config {
    /// A copy of the configuration with the same content.
    fn clone(&self) -> (r: Config)
        ensures
            r.name@ == self.name@,
            r.vendor_id == self.vendor_id,
            r.product_id == self.product_id,
            r.leds@ == self.leds@,
            r.effects@.map_values(|e: (String, i32, u32)| effect_view(e))
                == self.effects@.map_values(|e: (String, i32, u32)| effect_view(e)),
            r.speed == self.speed,
            r.brightness == self.brightness,
            r.matrix == self.matrix,
            r.wf() == self.wf(),
    {
        let mut effects: Vec<(String, i32, u32)> = Vec::new();
        let mut i: usize = 0;
        while i < self.effects.len()
            invariant
                i <= self.effects@.len(),
                effects@.len() == i,
                forall|j: int|
                    0 <= j < i ==> effect_view(#[trigger] effects@[j]) == effect_view(
                        self.effects@[j],
                    ),
            decreases self.effects@.len() - i,
        {
            effects.push((self.effects[i].0.clone(), self.effects[i].1, self.effects[i].2));
            i = i + 1;
        }
        let r = Config {
            name: self.name.clone(),
            vendor_id: self.vendor_id,
            product_id: self.product_id,
            leds: crate::utils::vec_copy(&self.leds),
            effects,
            speed: self.speed,
            brightness: self.brightness,
            matrix: self.matrix,
        };
        proof {
            assert(r.effects@.map_values(|e: (String, i32, u32)| effect_view(e))
                =~= self.effects@.map_values(|e: (String, i32, u32)| effect_view(e)));
        }
        r
    }
}

/// One flattened VIA menu option.
pub enum MenuOption {
    Range { label: String, min: u32, max: u32, show_if: Option<String> },
    Dropdown { label: String, options: Vec<(String, i32)> },
    Color { label: String, show_if: Option<String> },
    ColorPalette { label: String, show_if: Option<String> },
    Other,
}

/// A VIA definition reduced to plain values.
pub struct ViaDoc {
    pub name: String,
    pub vendor_id: String,
    pub product_id: String,
    pub rows: u32,
    pub cols: u32,
    /// The string entries of `layouts.keymap`, flattened row by row.
    pub keymap: Vec<String>,
    /// The entries of `menus[*].content[*].content[*]`, in order.
    pub menus: Vec<MenuOption>,
}

/// A capability control: a flag bit, guarded by an optional predicate over
/// the effect id.
pub struct Control {
    pub condition: Option<String>,
    pub flag: u32,
}

/// The verdict evalexpr gives to a boolean expression with the named integer
/// variable bound: `false` where the expression does not parse or does not
/// evaluate to a boolean.
pub uninterp spec fn eval_bool_with_var(expr: Seq<char>, var: Seq<char>, val: int) -> bool;

/// Relies on evalexpr's `build_operator_tree` and
/// `Node::eval_boolean_with_context`: the verdict depends on the expression,
/// the variable name and the bound value alone.
#[verifier::external_body]
pub(crate) fn eval_condition(expr: &str, var: &str, value: i32) -> (r: bool)
    ensures
        r == eval_bool_with_var(expr@, var@, value as int),
{
    let tree = match evalexpr::build_operator_tree::<evalexpr::DefaultNumericTypes>(expr) {
        Ok(t) => t,
        Err(_) => return false,
    };
    let mut context = evalexpr::HashMapContext::new();
    let bound = evalexpr::ContextWithMutableVariables::set_value(
        &mut context,
        var.into(),
        evalexpr::Value::from_int(value as i64),
    );
    if bound.is_err() {
        return false;
    }
    tree.eval_boolean_with_context(&context).unwrap_or(false)
}

/// Ascending order on LED entries: by index, then by position.
pub open spec fn led_le(a: (u8, (u8, u8)), b: (u8, (u8, u8))) -> bool {
    a.0 < b.0 || (a.0 == b.0 && (a.1.0 < b.1.0 || (a.1.0 == b.1.0 && a.1.1 <= b.1.1)))
}

/// Relies on itertools' `sorted`: the same entries, in ascending order.
#[verifier::external_body]
fn sorted_leds(v: Vec<(u8, (u8, u8))>) -> (r: Vec<(u8, (u8, u8))>)
    ensures
        r@.to_multiset() == v@.to_multiset(),
        forall|i: int, j: int| 0 <= i < j < r@.len() ==> led_le(#[trigger] r@[i], #[trigger] r@[j]),
{
    v.into_iter().sorted().collect()
}

/// Whether `c` is one of the blanks trimmed around a number.
pub open spec fn spec_is_space(c: char) -> bool {
    c == ' ' || c == '\t' || c == '\r'
}

pub open spec fn spec_trim_left(s: Seq<char>) -> Seq<char>
    decreases s.len(),
{
    if s.len() > 0 && spec_is_space(s[0]) {
        spec_trim_left(s.skip(1))
    } else {
        s
    }
}

pub open spec fn spec_trim_right(s: Seq<char>) -> Seq<char>
    decreases s.len(),
{
    if s.len() > 0 && spec_is_space(s.last()) {
        spec_trim_right(s.drop_last())
    } else {
        s
    }
}

/// `s` with the blanks at both ends removed.
pub open spec fn spec_trim(s: Seq<char>) -> Seq<char> {
    spec_trim_right(spec_trim_left(s))
}

pub open spec fn spec_is_digit(c: char) -> bool {
    48 <= c as u32 <= 57
}

pub open spec fn spec_is_hex_digit(c: char) -> bool {
    spec_is_digit(c) || (97 <= c as u32 <= 102) || (65 <= c as u32 <= 70)
}

pub open spec fn spec_hex_val(c: char) -> int {
    if spec_is_digit(c) {
        c as u32 - 48
    } else if 97 <= c as u32 <= 102 {
        c as u32 - 87
    } else {
        c as u32 - 55
    }
}

/// The value of a string of hexadecimal digits.
pub open spec fn spec_hex_str_val(s: Seq<char>) -> int
    decreases s.len(),
{
    if s.len() == 0 {
        0
    } else {
        spec_hex_str_val(s.drop_last()) * 16 + spec_hex_val(s.last())
    }
}

/// The value of a string of decimal digits.
pub open spec fn spec_dec_str_val(s: Seq<char>) -> int
    decreases s.len(),
{
    if s.len() == 0 {
        0
    } else {
        spec_dec_str_val(s.drop_last()) * 10 + (s.last() as u32 - 48)
    }
}

/// The digits of a hex id, with the optional `0x` prefix removed.
pub open spec fn spec_hex_digits(s: Seq<char>) -> Seq<char> {
    if s.len() >= 2 && s[0] == '0' && s[1] == 'x' {
        s.skip(2)
    } else {
        s
    }
}

/// A 16-bit id written in hex with an optional `0x` prefix; anything
/// malformed or out of range reads as 0.
pub open spec fn spec_parse_hex(s: Seq<char>) -> u16 {
    let t = spec_hex_digits(s);
    if t.len() > 0 && (forall|i: int| 0 <= i < t.len() ==> spec_is_hex_digit(#[trigger] t[i]))
        && spec_hex_str_val(t) <= 0xffff {
        spec_hex_str_val(t) as u16
    } else {
        0
    }
}

/// An 8-bit number written in decimal; anything malformed or out of range
/// reads as nothing.
pub open spec fn spec_parse_u8(s: Seq<char>) -> Option<u8> {
    if s.len() > 0 && (forall|i: int| 0 <= i < s.len() ==> spec_is_digit(#[trigger] s[i]))
        && spec_dec_str_val(s) <= 255 {
        Some(spec_dec_str_val(s) as u8)
    } else {
        None
    }
}

/// Parses a 16-bit hex id with an optional `0x` prefix; 0 on anything else.
pub fn parse_hex(s: &str) -> (r: u16)
    ensures
        r == spec_parse_hex(s@),
{
    let v = chars_of(s);
    let start: usize = if v.len() >= 2 && v[0] == '0' && v[1] == 'x' {
        2
    } else {
        0
    };
    let ghost t = spec_hex_digits(s@);
    proof {
        assert(v@.subrange(start as int, v@.len() as int) =~= t);
    }
    let mut val: u32 = 0;
    let mut i: usize = start;
    while i < v.len()
        invariant
            start <= i <= v@.len(),
            v@ == s@,
            t == spec_hex_digits(s@),
            t =~= v@.subrange(start as int, v@.len() as int),
            forall|j: int| 0 <= j < i - start ==> spec_is_hex_digit(#[trigger] t[j]),
            val <= 0xffff,
            val == spec_hex_str_val(t.subrange(0, i - start)),
        decreases v@.len() - i,
    {
        let c = v[i];
        let cu = c as u32;
        let d: u32 = if 48 <= cu && cu <= 57 {
            cu - 48
        } else if 97 <= cu && cu <= 102 {
            cu - 87
        } else if 65 <= cu && cu <= 70 {
            cu - 55
        } else {
            proof {
                assert(t[i - start] == v@[i as int]);
                assert(!spec_is_hex_digit(t[i - start]));
            }
            return 0;
        };
        let next: u32 = val * 16 + d;
        proof {
            assert(t.subrange(0, i + 1 - start).drop_last() =~= t.subrange(0, i - start));
            assert(t.subrange(0, i + 1 - start).last() == t[i - start]);
        }
        if next > 0xffff {
            proof {
                if forall|j: int| 0 <= j < t.len() ==> spec_is_hex_digit(#[trigger] t[j]) {
                    lemma_hex_prefix_exceeds(t, i + 1 - start);
                }
            }
            return 0;
        }
        val = next;
        i = i + 1;
    }
    if i == start {
        proof {
            assert(t.len() == 0);
        }
        return 0;
    }
    proof {
        assert(t.subrange(0, t.len() as int) =~= t);
    }
    val as u16
}

/// Once a prefix of the hex digits exceeds the 16-bit range, the whole
/// string does.
proof fn lemma_hex_prefix_exceeds(s: Seq<char>, k: int)
    requires
        0 <= k <= s.len(),
        spec_hex_str_val(s.subrange(0, k)) > 0xffff,
        forall|i: int| 0 <= i < s.len() ==> spec_is_hex_digit(#[trigger] s[i]),
    ensures
        spec_hex_str_val(s) > 0xffff,
    decreases s.len() - k,
{
    if k == s.len() {
        assert(s.subrange(0, k) =~= s);
    } else {
        assert(s.subrange(0, k + 1).drop_last() =~= s.subrange(0, k));
        assert(s.subrange(0, k + 1).last() == s[k]);
        assert(spec_hex_val(s[k]) >= 0);
        lemma_hex_prefix_exceeds(s, k + 1);
    }
}

/// Once a prefix of the decimal digits exceeds the 8-bit range, the whole
/// string does.
proof fn lemma_dec_prefix_exceeds(s: Seq<char>, k: int)
    requires
        0 <= k <= s.len(),
        spec_dec_str_val(s.subrange(0, k)) > 255,
        forall|i: int| 0 <= i < s.len() ==> spec_is_digit(#[trigger] s[i]),
    ensures
        spec_dec_str_val(s) > 255,
    decreases s.len() - k,
{
    if k == s.len() {
        assert(s.subrange(0, k) =~= s);
    } else {
        assert(s.subrange(0, k + 1).drop_last() =~= s.subrange(0, k));
        assert(s.subrange(0, k + 1).last() == s[k]);
        lemma_dec_prefix_exceeds(s, k + 1);
    }
}

/// Parses an 8-bit decimal number from a character slice.
pub fn parse_u8_chars(v: &[char]) -> (r: Option<u8>)
    ensures
        r == spec_parse_u8(v@),
{
    if v.len() == 0 {
        return None;
    }
    let mut val: u32 = 0;
    let mut i: usize = 0;
    while i < v.len()
        invariant
            i <= v@.len(),
            forall|j: int| 0 <= j < i ==> spec_is_digit(#[trigger] v@[j]),
            val <= 255,
            val == spec_dec_str_val(v@.subrange(0, i as int)),
        decreases v@.len() - i,
    {
        let c = v[i];
        let cu = c as u32;
        if !(48 <= cu && cu <= 57) {
            proof {
                assert(!spec_is_digit(v@[i as int]));
            }
            return None;
        }
        let next: u32 = val * 10 + (cu - 48);
        proof {
            assert(v@.subrange(0, i + 1).drop_last() =~= v@.subrange(0, i as int));
            assert(v@.subrange(0, i + 1).last() == v@[i as int]);
        }
        if next > 255 {
            proof {
                if forall|j: int| 0 <= j < v@.len() ==> spec_is_digit(#[trigger] v@[j]) {
                    lemma_dec_prefix_exceeds(v@, i + 1);
                }
            }
            return None;
        }
        val = next;
        i = i + 1;
    }
    proof {
        assert(v@.subrange(0, v@.len() as int) =~= v@);
    }
    Some(val as u8)
}

/// Trims the blanks at both ends of a character slice.
pub fn trim_chars(v: &[char]) -> (r: Vec<char>)
    ensures
        r@ == spec_trim(v@),
{
    let mut start: usize = 0;
    while start < v.len() && (v[start] == ' ' || v[start] == '\t' || v[start] == '\r')
        invariant
            start <= v@.len(),
            forall|j: int| 0 <= j < start ==> spec_is_space(#[trigger] v@[j]),
        decreases v@.len() - start,
    {
        start = start + 1;
    }
    let mut end: usize = v.len();
    while end > start && (v[end - 1] == ' ' || v[end - 1] == '\t' || v[end - 1] == '\r')
        invariant
            start <= end <= v@.len(),
            forall|j: int| 0 <= j < start ==> spec_is_space(#[trigger] v@[j]),
            start < v@.len() ==> !spec_is_space(v@[start as int]),
            forall|j: int| end <= j < v@.len() ==> spec_is_space(#[trigger] v@[j]),
        decreases end,
    {
        end = end - 1;
    }
    proof {
        lemma_trim_drops(v@, start as int, end as int);
    }
    let mut out: Vec<char> = Vec::new();
    let mut i: usize = start;
    while i < end
        invariant
            start <= i <= end <= v@.len(),
            out@ =~= v@.subrange(start as int, i as int),
        decreases end - i,
    {
        out.push(v[i]);
        i = i + 1;
    }
    out
}

proof fn lemma_trim_left_skips(s: Seq<char>, k: int)
    requires
        0 <= k <= s.len(),
        forall|j: int| 0 <= j < k ==> spec_is_space(#[trigger] s[j]),
        k < s.len() ==> !spec_is_space(s[k]),
    ensures
        spec_trim_left(s) =~= s.subrange(k, s.len() as int),
    decreases k,
{
    if k == 0 {
        if s.len() > 0 {
            assert(!spec_is_space(s[0]));
        }
        assert(s.subrange(0, s.len() as int) =~= s);
    } else {
        assert(spec_is_space(s[0]));
        let s1 = s.skip(1);
        assert(forall|j: int| 0 <= j < k - 1 ==> spec_is_space(#[trigger] s1[j]));
        if k - 1 < s1.len() {
            assert(s1[k - 1] == s[k]);
        }
        lemma_trim_left_skips(s1, k - 1);
        assert(s1.subrange(k - 1, s1.len() as int) =~= s.subrange(k, s.len() as int));
    }
}

proof fn lemma_trim_drops(s: Seq<char>, start: int, end: int)
    requires
        0 <= start <= end <= s.len(),
        forall|j: int| 0 <= j < start ==> spec_is_space(#[trigger] s[j]),
        start < s.len() ==> !spec_is_space(s[start]),
        forall|j: int| end <= j < s.len() ==> spec_is_space(#[trigger] s[j]),
        end > start ==> !spec_is_space(s[end - 1]),
    ensures
        spec_trim(s) =~= s.subrange(start, end),
    decreases s.len() - end,
{
    lemma_trim_left_skips(s, start);
    let t = s.subrange(start, s.len() as int);
    assert(spec_trim_left(s) == t);
    if end == s.len() {
        if end > start {
            assert(t.last() == s[end - 1]);
            assert(spec_trim_right(t) == t);
        } else {
            assert(t.len() == 0);
        }
    } else {
        let s2 = s.subrange(0, s.len() - 1);
        assert(start < s.len());
        assert(t.len() > 0);
        assert(t.last() == s[s.len() - 1]);
        assert(spec_is_space(t.last()));
        assert(spec_trim_right(t) == spec_trim_right(t.drop_last()));
        assert(forall|j: int| 0 <= j < start ==> spec_is_space(#[trigger] s2[j]));
        assert(forall|j: int| end <= j < s2.len() ==> spec_is_space(#[trigger] s2[j]));
        if start < s2.len() {
            assert(s2[start] == s[start]);
        }
        if end > start {
            assert(s2[end - 1] == s[end - 1]);
        }
        lemma_trim_drops(s2, start, end);
        lemma_trim_left_skips(s2, start);
        assert(t.drop_last() =~= s2.subrange(start, s2.len() as int));
        assert(spec_trim_left(s2) == s2.subrange(start, s2.len() as int));
        assert(spec_trim(s2) == spec_trim_right(t.drop_last()));
        assert(s2.subrange(start, end) =~= s.subrange(start, end));
    }
}

/// Splitting a character sequence on a separator.
pub open spec fn spec_split(s: Seq<char>, sep: char) -> Seq<Seq<char>>
    decreases s.len(),
{
    if s.len() == 0 {
        seq![Seq::<char>::empty()]
    } else if s[0] == sep {
        seq![Seq::<char>::empty()] + spec_split(s.skip(1), sep)
    } else {
        let rest = spec_split(s.skip(1), sep);
        seq![seq![s[0]] + rest[0]] + rest.skip(1)
    }
}

pub proof fn lemma_split_nonempty(s: Seq<char>, sep: char)
    ensures
        spec_split(s, sep).len() >= 1,
    decreases s.len(),
{
    if s.len() > 0 {
        lemma_split_nonempty(s.skip(1), sep);
    }
}

/// Splits a character slice on a separator.
pub fn split_on(v: &[char], sep: char) -> (r: Vec<Vec<char>>)
    ensures
        r@.map_values(|p: Vec<char>| p@) == spec_split(v@, sep),
        r@.len() >= 1,
{
    let mut out: Vec<Vec<char>> = Vec::new();
    out.push(Vec::new());
    proof {
        assert(v@.subrange(v@.len() as int, v@.len() as int) =~= Seq::<char>::empty());
        assert(out@.map_values(|p: Vec<char>| p@) =~~= spec_split(
            v@.subrange(v@.len() as int, v@.len() as int),
            sep,
        ));
    }
    let mut i: usize = v.len();
    while i > 0
        invariant
            i <= v@.len(),
            out@.len() >= 1,
            out@.map_values(|p: Vec<char>| p@) =~~= spec_split(
                v@.subrange(i as int, v@.len() as int),
                sep,
            ),
        decreases i,
    {
        let b = v[i - 1];
        let ghost tail = v@.subrange(i as int, v@.len() as int);
        let ghost whole = v@.subrange(i - 1, v@.len() as int);
        let ghost m0 = out@;
        proof {
            assert(whole[0] == v@[i - 1]);
            assert(whole.skip(1) =~= tail);
        }
        if b == sep {
            out.insert(0, Vec::new());
            proof {
                assert(out@.len() == m0.len() + 1);
                assert(out@[0]@ =~= Seq::<char>::empty());
                assert(forall|k: int| 1 <= k < out@.len() ==> out@[k] == m0[k - 1]);
                assert(spec_split(whole, sep) == seq![Seq::<char>::empty()] + spec_split(
                    tail,
                    sep,
                ));
                assert(out@.map_values(|p: Vec<char>| p@) =~~= spec_split(whole, sep));
            }
        } else {
            let mut first = out.remove(0);
            let ghost f0 = first@;
            first.insert(0, b);
            out.insert(0, first);
            proof {
                lemma_split_nonempty(tail, sep);
                assert(f0 == m0[0]@);
                assert(out@.len() == m0.len());
                assert(out@[0]@ =~= seq![v@[i - 1]] + f0);
                assert(forall|k: int| 1 <= k < out@.len() ==> out@[k] == m0[k]);
                assert(m0[0]@ == spec_split(tail, sep)[0]);
                assert(spec_split(whole, sep) == seq![
                    seq![whole[0]] + spec_split(tail, sep)[0],
                ] + spec_split(tail, sep).skip(1));
                assert(out@.map_values(|p: Vec<char>| p@) =~~= spec_split(whole, sep));
            }
        }
        i = i - 1;
    }
    proof {
        assert(v@.subrange(0, v@.len() as int) =~= v@);
        assert(out@.map_values(|p: Vec<char>| p@) =~= spec_split(v@, sep));
    }
    out
}

/// The LED entry a VIA keymap string encodes: "row,col" on its first line, an
/// `l`-prefixed LED index on its second, and no `e` encoder mark at line 8.
pub open spec fn spec_extract_led(s: Seq<char>) -> Option<(u8, (u8, u8))> {
    let lines = spec_split(s, '\n');
    let parts = spec_split(lines[0], ',');
    if parts.len() < 2 {
        None
    } else {
        let row = spec_parse_u8(spec_trim(parts[0]));
        let col = spec_parse_u8(spec_trim(parts[1]));
        if row is None || col is None {
            None
        } else if lines.len() < 2 || lines[1].len() < 1 || lines[1][0] != 'l' {
            None
        } else {
            match spec_parse_u8(lines[1].skip(1)) {
                Some(led) => {
                    if lines.len() > 8 && lines[8].len() >= 1 && lines[8][0] == 'e' {
                        None
                    } else {
                        Some((led, (row.unwrap(), col.unwrap())))
                    }
                },
                None => None,
            }
        }
    }
}

/// Reads the LED entry a VIA keymap string encodes, if any.
pub fn extract_led(key: &str) -> (r: Option<(u8, (u8, u8))>)
    ensures
        r == spec_extract_led(key@),
{
    let v = chars_of(key);
    let lines = split_on(v.as_slice(), '\n');
    let parts = split_on(lines[0].as_slice(), ',');
    if parts.len() < 2 {
        return None;
    }
    let row = match parse_u8_chars(trim_chars(parts[0].as_slice()).as_slice()) {
        Some(x) => x,
        None => {
            return None;
        },
    };
    let col = match parse_u8_chars(trim_chars(parts[1].as_slice()).as_slice()) {
        Some(x) => x,
        None => {
            return None;
        },
    };
    if lines.len() < 2 {
        return None;
    }
    let line1 = &lines[1];
    if line1.len() < 1 || line1[0] != 'l' {
        return None;
    }
    let digits = crate::utils::vec_suffix(line1, 1);
    let led = match parse_u8_chars(digits.as_slice()) {
        Some(x) => x,
        None => {
            return None;
        },
    };
    if lines.len() > 8 {
        let line8 = &lines[8];
        if line8.len() >= 1 && line8[0] == 'e' {
            return None;
        }
    }
    Some((led, (row, col)))
}


/// The view of an optional condition string.
pub open spec fn opt_view(o: Option<String>) -> Option<Seq<char>> {
    match o {
        Some(e) => Some(e@),
        None => None,
    }
}

/// The view of a control: its flag bit and its condition, if any.
pub open spec fn ctrl_view(c: Control) -> (u32, Option<Seq<char>>) {
    (c.flag, opt_view(c.condition))
}

/// The control a menu option contributes, if any: the brightness and speed
/// ranges and the colour and colour-palette options guard the corresponding
/// capability flags.
pub open spec fn spec_control_of(m: MenuOption) -> Option<(u32, Option<Seq<char>>)> {
    match m {
        MenuOption::Range { label, show_if, .. } => {
            if label@ == "id_qmk_rgb_matrix_brightness"@ {
                Some((MODE_FLAG_HAS_BRIGHTNESS, opt_view(show_if)))
            } else if label@ == "id_qmk_rgb_matrix_effect_speed"@ {
                Some((MODE_FLAG_HAS_SPEED, opt_view(show_if)))
            } else {
                None
            }
        },
        MenuOption::Color { label, show_if } => {
            if label@ == "id_qmk_rgb_matrix_color"@ {
                Some((MODE_FLAG_HAS_MODE_SPECIFIC_COLOR, opt_view(show_if)))
            } else {
                None
            }
        },
        MenuOption::ColorPalette { label, show_if } => {
            if label@ == "id_qmk_rgb_matrix_color"@ {
                Some((MODE_FLAG_HAS_PER_LED_COLOR, opt_view(show_if)))
            } else {
                None
            }
        },
        _ => None,
    }
}

/// The controls the menu options contribute, in order.
pub open spec fn spec_collect_controls(menus: Seq<MenuOption>) -> Seq<(u32, Option<Seq<char>>)>
    decreases menus.len(),
{
    if menus.len() == 0 {
        Seq::empty()
    } else {
        spec_collect_controls(menus.drop_last()) + (match spec_control_of(menus.last()) {
            Some(c) => seq![c],
            None => Seq::empty(),
        })
    }
}

/// Whether a control applies to an effect: its condition is absent, or the
/// predicate holds with the effect id bound.
pub open spec fn spec_control_active(c: (u32, Option<Seq<char>>), id: i32) -> bool {
    match c.1 {
        None => true,
        Some(e) => eval_bool_with_var(e, "{id_qmk_rgb_matrix_effect}"@, id as int),
    }
}

/// The capability flags an effect gathers from the controls.
pub open spec fn spec_effect_flags(cs: Seq<(u32, Option<Seq<char>>)>, id: i32) -> u32
    decreases cs.len(),
{
    if cs.len() == 0 {
        0
    } else {
        spec_effect_flags(cs.drop_last(), id) | (if spec_control_active(cs.last(), id) {
            cs.last().0
        } else {
            0
        })
    }
}

/// The post-processing of an effect's flags: an effect without a colour
/// source gets the random-colour flag (unless it is the off effect), and an
/// effect with speed or a mode colour must be saved explicitly.
pub open spec fn spec_adjust_flags(flags: u32, id: i32) -> u32 {
    let f1 = if flags & (MODE_FLAG_HAS_PER_LED_COLOR | MODE_FLAG_HAS_MODE_SPECIFIC_COLOR) == 0
        && id != 0 {
        flags | MODE_FLAG_HAS_RANDOM_COLOR
    } else {
        flags
    };
    if f1 & (MODE_FLAG_HAS_SPEED | MODE_FLAG_HAS_MODE_SPECIFIC_COLOR) != 0 {
        f1 | MODE_FLAG_MANUAL_SAVE
    } else {
        f1
    }
}

/// The range a menu option offers under the given label, if any.
pub open spec fn spec_range_match(m: MenuOption, target: Seq<char>) -> Option<(u32, u32)> {
    match m {
        MenuOption::Range { label, min, max, .. } => {
            if label@ == target {
                Some((min, max))
            } else {
                None
            }
        },
        _ => None,
    }
}

/// The first range offered under the given label; `(0, 0)` without one.
pub open spec fn spec_find_range(menus: Seq<MenuOption>, target: Seq<char>) -> (u32, u32)
    decreases menus.len(),
{
    if menus.len() == 0 {
        (0u32, 0u32)
    } else {
        match spec_range_match(menus[0], target) {
            Some(r) => r,
            None => spec_find_range(menus.skip(1), target),
        }
    }
}

/// The options of a dropdown under the given label, if any.
pub open spec fn spec_dropdown_match(m: MenuOption, target: Seq<char>) -> Option<Vec<(String, i32)>> {
    match m {
        MenuOption::Dropdown { label, options } => {
            if label@ == target {
                Some(options)
            } else {
                None
            }
        },
        _ => None,
    }
}

/// The options of the first effect dropdown; empty without one.
pub open spec fn spec_effect_options(menus: Seq<MenuOption>) -> Seq<(String, i32)>
    decreases menus.len(),
{
    if menus.len() == 0 {
        Seq::empty()
    } else {
        match spec_dropdown_match(menus[0], "id_qmk_rgb_matrix_effect"@) {
            Some(options) => options@,
            None => spec_effect_options(menus.skip(1)),
        }
    }
}

/// The view of one effect entry.
pub open spec fn effect_view(e: (String, i32, u32)) -> (Seq<char>, i32, u32) {
    (e.0@, e.1, e.2)
}

/// The effect list: the effect dropdown's options, each with the capability
/// flags its id gathers from the controls, post-processed.
pub open spec fn spec_parse_effects(menus: Seq<MenuOption>) -> Seq<(Seq<char>, i32, u32)> {
    let cs = spec_collect_controls(menus);
    let opts = spec_effect_options(menus);
    Seq::new(
        opts.len(),
        |k: int| (opts[k].0@, opts[k].1, spec_adjust_flags(spec_effect_flags(cs, opts[k].1), opts[k].1)),
    )
}

/// The LED entries the keymap strings encode, in order of appearance.
pub open spec fn spec_extract_leds(entries: Seq<String>) -> Seq<(u8, (u8, u8))>
    decreases entries.len(),
{
    if entries.len() == 0 {
        Seq::empty()
    } else {
        spec_extract_leds(entries.drop_last()) + (match spec_extract_led(entries.last()@) {
            Some(l) => seq![l],
            None => Seq::empty(),
        })
    }
}

/// The largest LED index of a non-empty LED list.
pub open spec fn spec_max_led(s: Seq<(u8, (u8, u8))>) -> int
    decreases s.len(),
{
    if s.len() <= 1 {
        s[0].0 as int
    } else if spec_max_led(s.drop_last()) >= s.last().0 as int {
        spec_max_led(s.drop_last())
    } else {
        s.last().0 as int
    }
}

/// One more than the largest LED index; zero without LEDs.
pub open spec fn spec_count_leds(s: Seq<(u8, (u8, u8))>) -> u32 {
    if s.len() == 0 {
        0u32
    } else {
        (spec_max_led(s) + 1) as u32
    }
}

proof fn lemma_max_led_bounds(s: Seq<(u8, (u8, u8))>)
    requires
        s.len() >= 1,
    ensures
        0 <= spec_max_led(s) <= 255,
    decreases s.len(),
{
    if s.len() > 1 {
        lemma_max_led_bounds(s.drop_last());
    }
}

/// The LED count never exceeds 256.
pub proof fn lemma_count_leds_bound(s: Seq<(u8, (u8, u8))>)
    ensures
        spec_count_leds(s) <= 256,
{
    if s.len() > 0 {
        lemma_max_led_bounds(s);
    }
}

/// The LED count bounds every LED index, is witnessed by some LED, and never
/// exceeds 256.
pub proof fn lemma_count_leds(s: Seq<(u8, (u8, u8))>)
    requires
        s.len() > 0,
    ensures
        forall|k: int| 0 <= k < s.len() ==> (#[trigger] s[k]).0 < spec_count_leds(s),
        exists|k: int| 0 <= k < s.len() && (#[trigger] s[k]).0 + 1 == spec_count_leds(s),
        1 <= spec_count_leds(s) <= 256,
    decreases s.len(),
{
    if s.len() == 1 {
        assert(s[0].0 + 1 == spec_count_leds(s));
    } else {
        lemma_count_leds(s.drop_last());
        let p = s.drop_last();
        lemma_max_led_bounds(p);
        lemma_max_led_bounds(s);
        assert(spec_count_leds(p) == spec_max_led(p) + 1);
        assert(spec_count_leds(s) == spec_max_led(s) + 1);
        assert(forall|k: int| 0 <= k < p.len() ==> s[k] == p[k]);
        if spec_max_led(p) >= s.last().0 as int {
            assert(spec_count_leds(s) == spec_count_leds(p));
            let k0: int = choose|k: int|
                0 <= k < p.len() && (#[trigger] p[k]).0 + 1 == spec_count_leds(p);
            assert(s[k0] == p[k0]);
            assert(s[k0].0 + 1 == spec_count_leds(s));
            assert forall|k: int| 0 <= k < s.len() implies (#[trigger] s[k]).0 < spec_count_leds(
                s,
            ) by {
                if k < p.len() {
                    assert(s[k] == p[k]);
                    assert(p[k].0 < spec_count_leds(p));
                } else {
                    assert(s[k] == s.last());
                    assert(s.last().0 as int <= spec_max_led(p));
                }
            }
        } else {
            assert(s[s.len() - 1].0 + 1 == spec_count_leds(s));
            assert forall|k: int| 0 <= k < s.len() implies (#[trigger] s[k]).0 < spec_count_leds(
                s,
            ) by {
                if k < p.len() {
                    assert(s[k] == p[k]);
                    assert(p[k].0 < spec_count_leds(p));
                    assert(spec_count_leds(p) == spec_max_led(p) + 1);
                    assert(spec_max_led(p) < s.last().0 as int);
                }
            }
        }
    }
}

/// Collects the controls the menu options contribute.
pub fn collect_controls(menus: &Vec<MenuOption>) -> (r: Vec<Control>)
    ensures
        r@.map_values(|c: Control| ctrl_view(c)) == spec_collect_controls(menus@),
{
    let mut out: Vec<Control> = Vec::new();
    let mut i: usize = 0;
    while i < menus.len()
        invariant
            i <= menus@.len(),
            out@.map_values(|c: Control| ctrl_view(c)) =~= spec_collect_controls(
                menus@.subrange(0, i as int),
            ),
        decreases menus@.len() - i,
    {
        let ghost pre = menus@.subrange(0, i as int);
        let picked: Option<Control> = match &menus[i] {
            MenuOption::Range { label, show_if, .. } => {
                if str_eq(label.as_str(), "id_qmk_rgb_matrix_brightness") {
                    Some(Control { condition: clone_opt_string(show_if), flag: MODE_FLAG_HAS_BRIGHTNESS })
                } else if str_eq(label.as_str(), "id_qmk_rgb_matrix_effect_speed") {
                    Some(Control { condition: clone_opt_string(show_if), flag: MODE_FLAG_HAS_SPEED })
                } else {
                    None
                }
            },
            MenuOption::Color { label, show_if } => {
                if str_eq(label.as_str(), "id_qmk_rgb_matrix_color") {
                    Some(Control { condition: clone_opt_string(show_if), flag: MODE_FLAG_HAS_MODE_SPECIFIC_COLOR })
                } else {
                    None
                }
            },
            MenuOption::ColorPalette { label, show_if } => {
                if str_eq(label.as_str(), "id_qmk_rgb_matrix_color") {
                    Some(Control { condition: clone_opt_string(show_if), flag: MODE_FLAG_HAS_PER_LED_COLOR })
                } else {
                    None
                }
            },
            _ => None,
        };
        proof {
            assert(menus@.subrange(0, i + 1).drop_last() =~= pre);
            assert(menus@.subrange(0, i + 1).last() == menus@[i as int]);
        }
        match picked {
            Some(c) => {
                proof {
                    assert(spec_control_of(menus@[i as int]) == Some(ctrl_view(c)));
                }
                out.push(c);
                proof {
                    assert(out@.map_values(|c: Control| ctrl_view(c)) =~= spec_collect_controls(
                        menus@.subrange(0, i + 1),
                    ));
                }
            },
            None => {
                proof {
                    assert(spec_control_of(menus@[i as int]) is None);
                    assert(out@.map_values(|c: Control| ctrl_view(c)) =~= spec_collect_controls(
                        menus@.subrange(0, i + 1),
                    ));
                }
            },
        }
        i = i + 1;
    }
    proof {
        assert(menus@.subrange(0, menus@.len() as int) =~= menus@);
    }
    out
}

/// A copy of an optional string with the same characters.
fn clone_opt_string(o: &Option<String>) -> (r: Option<String>)
    ensures
        opt_view(r) == opt_view(*o),
{
    match o {
        Some(s) => Some(s.clone()),
        None => None,
    }
}

/// The first range offered under the given label; `(0, 0)` without one.
pub fn find_range(menus: &Vec<MenuOption>, target: &str) -> (r: (u32, u32))
    ensures
        r == spec_find_range(menus@, target@),
{
    proof {
        assert(menus@.subrange(0, menus@.len() as int) =~= menus@);
    }
    let mut i: usize = 0;
    while i < menus.len()
        invariant
            i <= menus@.len(),
            spec_find_range(menus@, target@) == spec_find_range(
                menus@.subrange(i as int, menus@.len() as int),
                target@,
            ),
        decreases menus@.len() - i,
    {
        let ghost rest = menus@.subrange(i as int, menus@.len() as int);
        proof {
            assert(rest[0] == menus@[i as int]);
            assert(rest.skip(1) =~= menus@.subrange(i + 1, menus@.len() as int));
        }
        match &menus[i] {
            MenuOption::Range { label, min, max, .. } => {
                if str_eq(label.as_str(), target) {
                    proof {
                        assert(spec_range_match(menus@[i as int], target@) == Some(
                            (*min, *max),
                        ));
                    }
                    return (*min, *max);
                }
            },
            _ => {},
        }
        proof {
            assert(spec_range_match(menus@[i as int], target@) is None);
        }
        i = i + 1;
    }
    proof {
        assert(menus@.subrange(menus@.len() as int, menus@.len() as int).len() == 0);
    }
    (0, 0)
}

/// The flags an effect id gathers from the controls.
fn effect_flags(controls: &Vec<Control>, id: i32) -> (r: u32)
    ensures
        r == spec_effect_flags(controls@.map_values(|c: Control| ctrl_view(c)), id),
{
    let ghost cv = controls@.map_values(|c: Control| ctrl_view(c));
    let mut fl: u32 = 0;
    let mut i: usize = 0;
    while i < controls.len()
        invariant
            i <= controls@.len(),
            cv == controls@.map_values(|c: Control| ctrl_view(c)),
            fl == spec_effect_flags(cv.subrange(0, i as int), id),
        decreases controls@.len() - i,
    {
        let active: bool = match &controls[i].condition {
            None => true,
            Some(e) => eval_condition(e.as_str(), "{id_qmk_rgb_matrix_effect}", id),
        };
        let newfl: u32 = if active {
            fl | controls[i].flag
        } else {
            fl
        };
        proof {
            assert(cv.subrange(0, i + 1).drop_last() =~= cv.subrange(0, i as int));
            assert(cv.subrange(0, i + 1).last() == cv[i as int]);
            assert(cv[i as int] == ctrl_view(controls@[i as int]));
            assert(active == spec_control_active(cv[i as int], id));
            if !active {
                assert(fl | 0 == fl) by (bit_vector);
            }
            assert(newfl == spec_effect_flags(cv.subrange(0, i + 1), id));
        }
        fl = newfl;
        i = i + 1;
    }
    proof {
        assert(cv.subrange(0, cv.len() as int) =~= cv);
    }
    fl
}

/// The post-processing of an effect's flags.
fn adjust_flags(flags: u32, id: i32) -> (r: u32)
    ensures
        r == spec_adjust_flags(flags, id),
{
    let mut fl = flags;
    if fl & (MODE_FLAG_HAS_PER_LED_COLOR | MODE_FLAG_HAS_MODE_SPECIFIC_COLOR) == 0 && id != 0 {
        fl = fl | MODE_FLAG_HAS_RANDOM_COLOR;
    }
    if fl & (MODE_FLAG_HAS_SPEED | MODE_FLAG_HAS_MODE_SPECIFIC_COLOR) != 0 {
        fl = fl | MODE_FLAG_MANUAL_SAVE;
    }
    fl
}

/// The effect list of the first effect dropdown, each entry with the flags
/// its id gathers.
pub fn parse_effects(menus: &Vec<MenuOption>) -> (r: Vec<(String, i32, u32)>)
    ensures
        r@.map_values(|e: (String, i32, u32)| effect_view(e)) == spec_parse_effects(menus@),
{
    let controls = collect_controls(menus);
    let ghost cv = controls@.map_values(|c: Control| ctrl_view(c));
    let mut out: Vec<(String, i32, u32)> = Vec::new();
    proof {
        assert(menus@.subrange(0, menus@.len() as int) =~= menus@);
    }
    let mut d: usize = 0;
    while d < menus.len()
        invariant
            d <= menus@.len(),
            out@.len() == 0,
            cv == spec_collect_controls(menus@),
            cv == controls@.map_values(|c: Control| ctrl_view(c)),
            spec_effect_options(menus@) == spec_effect_options(
                menus@.subrange(d as int, menus@.len() as int),
            ),
        decreases menus@.len() - d,
    {
        let ghost rest = menus@.subrange(d as int, menus@.len() as int);
        proof {
            assert(rest[0] == menus@[d as int]);
            assert(rest.skip(1) =~= menus@.subrange(d + 1, menus@.len() as int));
        }
        match &menus[d] {
            MenuOption::Dropdown { label, options } => {
                if str_eq(label.as_str(), "id_qmk_rgb_matrix_effect") {
                    proof {
                        assert(spec_dropdown_match(menus@[d as int], "id_qmk_rgb_matrix_effect"@)
                            == Some(*options));
                        assert(spec_effect_options(menus@) == options@);
                        assert(out@.map_values(|e: (String, i32, u32)| effect_view(e))
                            =~= spec_parse_effects(menus@).subrange(0, 0));
                    }
                    let mut k: usize = 0;
                    while k < options.len()
                        invariant
                            k <= options@.len(),
                            cv == spec_collect_controls(menus@),
                            cv == controls@.map_values(|c: Control| ctrl_view(c)),
                            spec_effect_options(menus@) == options@,
                            out@.map_values(|e: (String, i32, u32)| effect_view(e)) =~= spec_parse_effects(
                                menus@,
                            ).subrange(0, k as int),
                        decreases options@.len() - k,
                    {
                        let name = options[k].0.clone();
                        let id = options[k].1;
                        let fl = adjust_flags(effect_flags(&controls, id), id);
                        let ghost pre = out@;
                        out.push((name, id, fl));
                        proof {
                            assert(spec_parse_effects(menus@)[k as int] == (
                                options@[k as int].0@,
                                id,
                                fl,
                            ));
                            assert(out@ =~= pre.push((name, id, fl)));
                            assert(effect_view((name, id, fl)) == spec_parse_effects(
                                menus@,
                            )[k as int]);
                            assert(out@.map_values(|e: (String, i32, u32)| effect_view(e))
                                =~= pre.map_values(|e: (String, i32, u32)| effect_view(e)).push(
                                effect_view((name, id, fl)),
                            ));
                            assert(spec_parse_effects(menus@).subrange(0, k + 1)
                                =~= spec_parse_effects(menus@).subrange(0, k as int).push(
                                spec_parse_effects(menus@)[k as int],
                            ));
                            assert(out@.map_values(|e: (String, i32, u32)| effect_view(e))
                                =~= spec_parse_effects(menus@).subrange(0, k + 1));
                        }
                        k = k + 1;
                    }
                    proof {
                        assert(spec_parse_effects(menus@).subrange(
                            0,
                            spec_parse_effects(menus@).len() as int,
                        ) =~= spec_parse_effects(menus@));
                    }
                    return out;
                }
            },
            _ => {},
        }
        proof {
            assert(spec_dropdown_match(menus@[d as int], "id_qmk_rgb_matrix_effect"@) is None);
        }
        d = d + 1;
    }
    proof {
        assert(menus@.subrange(menus@.len() as int, menus@.len() as int).len() == 0);
        assert(spec_effect_options(menus@).len() == 0);
        assert(spec_parse_effects(menus@).len() == 0);
        assert(out@.map_values(|e: (String, i32, u32)| effect_view(e)) =~= spec_parse_effects(
            menus@,
        ));
    }
    out
}

/// A sorted LED list with later entries of an already-seen LED index
/// removed: one entry per index survives.
pub open spec fn spec_dedup_leds(s: Seq<(u8, (u8, u8))>) -> Seq<(u8, (u8, u8))>
    decreases s.len(),
{
    if s.len() == 0 {
        Seq::empty()
    } else {
        let p = spec_dedup_leds(s.drop_last());
        if p.len() > 0 && p.last().0 == s.last().0 {
            p
        } else {
            p.push(s.last())
        }
    }
}

/// The LED indices of a LED list, in order.
pub open spec fn led_indices(s: Seq<(u8, (u8, u8))>) -> Seq<u8> {
    s.map_values(|l: (u8, (u8, u8))| l.0)
}

/// Every entry of the deduplicated list is an entry of the list.
proof fn lemma_dedup_member(s: Seq<(u8, (u8, u8))>)
    ensures
        forall|i: int|
            0 <= i < spec_dedup_leds(s).len() ==> s.contains(#[trigger] spec_dedup_leds(s)[i]),
    decreases s.len(),
{
    if s.len() == 0 {
        return ;
    }
    let sp = s.drop_last();
    lemma_dedup_member(sp);
    let p = spec_dedup_leds(sp);
    let d = spec_dedup_leds(s);
    assert forall|i: int| 0 <= i < d.len() implies s.contains(#[trigger] d[i]) by {
        if i < p.len() {
            assert(d[i] == p[i]);
            assert(sp.contains(p[i]));
            let w = choose|w: int| 0 <= w < sp.len() && sp[w] == p[i];
            assert(s[w] == p[i]);
        } else {
            assert(d[i] == s.last());
            assert(s[s.len() - 1] == s.last());
        }
    }
}

/// Every LED index of the list appears in the deduplicated list.
proof fn lemma_dedup_cover(s: Seq<(u8, (u8, u8))>)
    ensures
        forall|k: int|
            0 <= k < s.len() ==> led_indices(spec_dedup_leds(s)).contains((#[trigger] s[k]).0),
    decreases s.len(),
{
    if s.len() == 0 {
        return ;
    }
    let sp = s.drop_last();
    lemma_dedup_cover(sp);
    let p = spec_dedup_leds(sp);
    let d = spec_dedup_leds(s);
    assert forall|k: int| 0 <= k < s.len() implies led_indices(d).contains(
        (#[trigger] s[k]).0,
    ) by {
        if k < sp.len() {
            assert(sp[k] == s[k]);
            assert(led_indices(p).contains(sp[k].0));
            let i0 = choose|i: int| 0 <= i < led_indices(p).len() && led_indices(p)[i] == sp[k].0;
            if p.len() > 0 && p.last().0 == s.last().0 {
                assert(d == p);
                assert(led_indices(d)[i0] == s[k].0);
            } else {
                assert(d == p.push(s.last()));
                assert(d[i0] == p[i0]);
                assert(led_indices(d)[i0] == s[k].0);
            }
        } else {
            assert(s[k] == s.last());
            if p.len() > 0 && p.last().0 == s.last().0 {
                assert(led_indices(d)[d.len() - 1] == s.last().0);
            } else {
                assert(d == p.push(s.last()));
                assert(d[d.len() - 1] == s.last());
                assert(led_indices(d)[d.len() - 1] == s.last().0);
            }
        }
    }
}

/// Deduplicating a sorted list leaves strictly increasing LED indices.
proof fn lemma_dedup_strict(s: Seq<(u8, (u8, u8))>)
    requires
        forall|i: int, j: int| 0 <= i < j < s.len() ==> led_le(#[trigger] s[i], #[trigger] s[j]),
    ensures
        forall|i: int, j: int|
            0 <= i < j < spec_dedup_leds(s).len() ==> (#[trigger] spec_dedup_leds(s)[i]).0 < (
            #[trigger] spec_dedup_leds(s)[j]).0,
    decreases s.len(),
{
    if s.len() == 0 {
        return ;
    }
    let sp = s.drop_last();
    assert forall|i: int, j: int| 0 <= i < j < sp.len() implies led_le(
        #[trigger] sp[i],
        #[trigger] sp[j],
    ) by {
        assert(sp[i] == s[i]);
        assert(sp[j] == s[j]);
    }
    lemma_dedup_strict(sp);
    lemma_dedup_member(sp);
    let p = spec_dedup_leds(sp);
    let d = spec_dedup_leds(s);
    if p.len() > 0 && p.last().0 == s.last().0 {
        assert(d == p);
    } else {
        assert(d == p.push(s.last()));
        if p.len() > 0 {
            assert(sp.contains(p.last()));
            let w = choose|w: int| 0 <= w < sp.len() && sp[w] == p.last();
            assert(sp[w] == s[w]);
            if w < s.len() - 1 {
                assert(led_le(s[w], s[s.len() - 1]));
            }
            assert(p.last().0 <= s.last().0);
            assert(p.last().0 != s.last().0);
        }
        assert forall|i: int, j: int| 0 <= i < j < d.len() implies (#[trigger] d[i]).0 < (
        #[trigger] d[j]).0 by {
            if j < d.len() - 1 {
                assert(d[i] == p[i]);
                assert(d[j] == p[j]);
            } else {
                assert(d[j] == s.last());
                assert(d[i] == p[i]);
                if i < p.len() - 1 {
                    assert(p[i].0 < p[p.len() - 1].0);
                }
                assert(p[i].0 <= p.last().0);
            }
        }
    }
}

/// Drops every entry whose LED index an earlier entry already carries.
fn dedup_leds(v: &Vec<(u8, (u8, u8))>) -> (r: Vec<(u8, (u8, u8))>)
    ensures
        r@ =~= spec_dedup_leds(v@),
{
    let mut out: Vec<(u8, (u8, u8))> = Vec::new();
    let mut i: usize = 0;
    while i < v.len()
        invariant
            i <= v@.len(),
            out@ =~= spec_dedup_leds(v@.subrange(0, i as int)),
        decreases v@.len() - i,
    {
        proof {
            assert(v@.subrange(0, i + 1).drop_last() =~= v@.subrange(0, i as int));
            assert(v@.subrange(0, i + 1).last() == v@[i as int]);
        }
        let keep: bool = if out.len() == 0 {
            true
        } else {
            out[out.len() - 1].0 != v[i].0
        };
        if keep {
            out.push(v[i]);
        }
        proof {
            assert(out@ =~= spec_dedup_leds(v@.subrange(0, i + 1)));
        }
        i = i + 1;
    }
    proof {
        assert(v@.subrange(0, v@.len() as int) =~= v@);
    }
    out
}

/// Extracts the LED entries of the keymap strings, sorted by LED index with
/// one entry per index.
fn parse_leds(keymap: &Vec<String>) -> (r: Vec<(u8, (u8, u8))>)
    ensures
        forall|i: int, j: int| 0 <= i < j < r@.len() ==> (#[trigger] r@[i]).0 < (
        #[trigger] r@[j]).0,
        forall|i: int|
            0 <= i < r@.len() ==> spec_extract_leds(keymap@).contains(#[trigger] r@[i]),
        forall|k: int|
            0 <= k < spec_extract_leds(keymap@).len() ==> led_indices(r@).contains(
                (#[trigger] spec_extract_leds(keymap@)[k]).0,
            ),
{
    let mut out: Vec<(u8, (u8, u8))> = Vec::new();
    let mut i: usize = 0;
    while i < keymap.len()
        invariant
            i <= keymap@.len(),
            out@ =~= spec_extract_leds(keymap@.subrange(0, i as int)),
        decreases keymap@.len() - i,
    {
        proof {
            assert(keymap@.subrange(0, i + 1).drop_last() =~= keymap@.subrange(0, i as int));
            assert(keymap@.subrange(0, i + 1).last() == keymap@[i as int]);
        }
        match extract_led(keymap[i].as_str()) {
            Some(l) => {
                out.push(l);
            },
            None => {},
        }
        proof {
            assert(out@ =~= spec_extract_leds(keymap@.subrange(0, i + 1)));
        }
        i = i + 1;
    }
    proof {
        assert(keymap@.subrange(0, keymap@.len() as int) =~= keymap@);
    }
    let sorted = sorted_leds(out);
    let deduped = dedup_leds(&sorted);
    proof {
        let extracted = spec_extract_leds(keymap@);
        lemma_dedup_member(sorted@);
        lemma_dedup_cover(sorted@);
        lemma_dedup_strict(sorted@);
        extracted.to_multiset_ensures();
        sorted@.to_multiset_ensures();
        assert forall|i: int| 0 <= i < deduped@.len() implies extracted.contains(
            #[trigger] deduped@[i],
        ) by {
            assert(sorted@.contains(deduped@[i]));
            assert(sorted@.to_multiset().count(deduped@[i]) > 0);
            assert(extracted.to_multiset().count(deduped@[i]) > 0);
        }
        assert forall|k: int| 0 <= k < extracted.len() implies led_indices(deduped@).contains(
            (#[trigger] extracted[k]).0,
        ) by {
            assert(extracted.contains(extracted[k]));
            assert(extracted.to_multiset().count(extracted[k]) > 0);
            assert(sorted@.to_multiset().count(extracted[k]) > 0);
            assert(sorted@.contains(extracted[k]));
            let w = choose|w: int| 0 <= w < sorted@.len() && sorted@[w] == extracted[k];
            assert(led_indices(spec_dedup_leds(sorted@)).contains(sorted@[w].0));
            assert(led_indices(deduped@) =~= led_indices(spec_dedup_leds(sorted@)));
        }
    }
    deduped
}

/// What a configuration built from a reduced VIA document holds: the
/// document's identity fields and ranges, the effect list with its computed
/// flags, and the LED entries extracted from the keymap — sorted, one entry
/// per LED index, every extracted index kept.
pub open spec fn config_of_doc(cfg: Config, doc: ViaDoc) -> bool {
    &&& cfg.name == doc.name
    &&& cfg.vendor_id == spec_parse_hex(doc.vendor_id@)
    &&& cfg.product_id == spec_parse_hex(doc.product_id@)
    &&& cfg.matrix == ((doc.cols, doc.rows))
    &&& cfg.speed == spec_find_range(doc.menus@, "id_qmk_rgb_matrix_effect_speed"@)
    &&& cfg.brightness == spec_find_range(doc.menus@, "id_qmk_rgb_matrix_brightness"@)
    &&& cfg.effects@.map_values(|e: (String, i32, u32)| effect_view(e)) == spec_parse_effects(
        doc.menus@,
    )
    &&& forall|i: int, j: int|
        0 <= i < j < cfg.leds@.len() ==> (#[trigger] cfg.leds@[i]).0 < (
        #[trigger] cfg.leds@[j]).0
    &&& forall|i: int|
        0 <= i < cfg.leds@.len() ==> spec_extract_leds(doc.keymap@).contains(
            #[trigger] cfg.leds@[i],
        )
    &&& forall|k: int|
        0 <= k < spec_extract_leds(doc.keymap@).len() ==> led_indices(cfg.leds@).contains(
            (#[trigger] spec_extract_leds(doc.keymap@)[k]).0,
        )
}

impl Config {
    /// Builds the configuration a reduced VIA document describes.
    pub fn from_doc(doc: ViaDoc) -> (cfg: Config)
        ensures
            config_of_doc(cfg, doc),
    {
        let ViaDoc { name, vendor_id, product_id, rows, cols, keymap, menus } = doc;
        let leds = parse_leds(&keymap);
        let effects = parse_effects(&menus);
        let speed = find_range(&menus, "id_qmk_rgb_matrix_effect_speed");
        let brightness = find_range(&menus, "id_qmk_rgb_matrix_brightness");
        let cfg = Config {
            vendor_id: parse_hex(vendor_id.as_str()),
            product_id: parse_hex(product_id.as_str()),
            name,
            leds,
            effects,
            speed,
            brightness,
            matrix: (cols, rows),
        };
        proof {
            assert(cfg.leds@ == leds@);
            assert(doc.keymap@ == keymap@);
            assert forall|i: int| 0 <= i < cfg.leds@.len() implies spec_extract_leds(
                doc.keymap@,
            ).contains(#[trigger] cfg.leds@[i]) by {
                assert(cfg.leds@[i] == leds@[i]);
                assert(spec_extract_leds(keymap@).contains(leds@[i]));
            }
            assert forall|i: int, j: int| 0 <= i < j < cfg.leds@.len() implies (
            #[trigger] cfg.leds@[i]).0 < (#[trigger] cfg.leds@[j]).0 by {
                assert(leds@[i].0 < leds@[j].0);
            }
            assert forall|k: int| 0 <= k < spec_extract_leds(doc.keymap@).len() implies led_indices(
                cfg.leds@,
            ).contains((#[trigger] spec_extract_leds(doc.keymap@)[k]).0) by {
                assert(led_indices(leds@).contains((spec_extract_leds(keymap@)[k]).0));
                assert(led_indices(cfg.leds@) == led_indices(leds@));
            }
        }
        cfg
    }

    /// The number of LED slots the device's buffer holds: one more than the
    /// largest LED index, or zero without LEDs.
    pub fn count_leds(&self) -> (r: u32)
        ensures
            r == spec_count_leds(self.leds@),
    {
        if self.leds.len() == 0 {
            return 0;
        }
        let mut best: u8 = self.leds[0].0;
        let mut i: usize = 1;
        while i < self.leds.len()
            invariant
                1 <= i <= self.leds@.len(),
                self.leds@.len() >= 1,
                best as int == spec_max_led(self.leds@.subrange(0, i as int)),
            decreases self.leds@.len() - i,
        {
            proof {
                assert(self.leds@.subrange(0, i + 1).drop_last() =~= self.leds@.subrange(
                    0,
                    i as int,
                ));
                assert(self.leds@.subrange(0, i + 1).last() == self.leds@[i as int]);
            }
            if self.leds[i].0 > best {
                best = self.leds[i].0;
            }
            i = i + 1;
        }
        proof {
            assert(self.leds@.subrange(0, self.leds@.len() as int) =~= self.leds@);
        }
        best as u32 + 1
    }

    /// Whether the configuration can drive a keyboard: the matrix is small
    /// enough for the keymap protocol and every LED sits inside the matrix.
    pub open spec fn wf(&self) -> bool {
        &&& self.matrix.0 * self.matrix.1 <= 0x7fff
        &&& forall|k: int|
            0 <= k < self.leds@.len() ==> (#[trigger] self.leds@[k]).1.0 < self.matrix.1
                && self.leds@[k].1.1 < self.matrix.0
    }

    /// Tests [`Config::wf`].
    pub fn well_formed(&self) -> (r: bool)
        ensures
            r == self.wf(),
    {
        let prod: u64 = {
            let a: u64 = self.matrix.0 as u64;
            let b: u64 = self.matrix.1 as u64;
            assert(a * b <= u64::MAX) by (nonlinear_arith)
                requires
                    a < 0x100000000 && b < 0x100000000,
            ;
            a * b
        };
        if prod > 0x7fff {
            return false;
        }
        let mut i: usize = 0;
        while i < self.leds.len()
            invariant
                i <= self.leds@.len(),
                forall|k: int|
                    0 <= k < i ==> (#[trigger] self.leds@[k]).1.0 < self.matrix.1
                        && self.leds@[k].1.1 < self.matrix.0,
            decreases self.leds@.len() - i,
        {
            let (_, (row, col)) = self.leds[i];
            if !((row as u32) < self.matrix.1 && (col as u32) < self.matrix.0) {
                return false;
            }
            i = i + 1;
        }
        true
    }
}

} // verus!
