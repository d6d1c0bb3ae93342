//! The keyboard controller.
//!
//! A controller holds a device's immutable description, its keymap, and the
//! cached device state, and translates every mutation into the QMK command
//! reports that carry it to the device. Colour frames go through the
//! differential chunker so that only changed LED ranges are sent.

use vstd::prelude::*;
use vstd::std_specs::cmp::PartialEqSpec;

use crate::chunks::{chunk_changed_list, chunks_view, plain_eq, spec_chunks};
use crate::colors::{hsv8_of_rgb, hsv_to_rgb8, rgb8_of_hsv, rgb_to_hsv8};
use crate::config::{spec_count_leds, Config};
use crate::consts::{
    QMK_COMMAND_BRIGHTNESS, QMK_COMMAND_COLOR, QMK_COMMAND_EFFECT, QMK_COMMAND_MATRIX_BRIGHTNESS,
    QMK_COMMAND_MATRIX_CHROMA, QMK_COMMAND_SPEED, QMK_CUSTOM_CHANNEL, QMK_CUSTOM_GET_COMMAND,
    QMK_CUSTOM_SAVE_COMMAND, QMK_CUSTOM_SET_COMMAND, QMK_KEYMAP_GET_COMMAND,
    QMK_RGB_MATRIX_CHANNEL,
};
use crate::report::Report;
use crate::state::{emit_state, spec_parse_state, KeyboardState, StateV};
use crate::utils::vec_suffix;

verus! {

/// The raw size of every HID report this controller emits.
pub const REPORT_SIZE: usize = 33;

/// Why a controller operation was refused.
#[derive(Clone, Copy, PartialEq, Eq, Structural, Debug)]
pub enum KeyboardError {
    /// A colour update reaches past the LED buffer.
    OutOfRange,
    /// A saved state document does not parse.
    StateParse,
    /// A device response does not fit the request it answers.
    Response,
    /// The parts handed to the constructor do not fit together.
    Mismatch,
}

/// A run of `n` zero bytes.
pub open spec fn zeros(n: int) -> Seq<u8> {
    Seq::new(n as nat, |i: int| 0u8)
}

/// Hue/saturation pairs flattened to bytes.
pub open spec fn flat_pairs(l: Seq<(u8, u8)>) -> Seq<u8>
    decreases l.len(),
{
    if l.len() == 0 {
        Seq::empty()
    } else {
        seq![l[0].0, l[0].1] + flat_pairs(l.skip(1))
    }
}

/// The payload of one chroma SET report: command, channel, subcommand,
/// absolute offset, count, then the pairs, zero padded.
pub open spec fn chroma_set_payload(base: int, c: (int, Seq<(u8, u8)>)) -> Seq<u8> {
    seq![
        QMK_CUSTOM_SET_COMMAND,
        QMK_CUSTOM_CHANNEL,
        QMK_COMMAND_MATRIX_CHROMA,
        (base + c.0) as u8,
        c.1.len() as u8,
    ] + flat_pairs(c.1) + zeros(27 - 2 * c.1.len())
}

/// The payload of one brightness SET report.
pub open spec fn value_set_payload(base: int, c: (int, Seq<u8>)) -> Seq<u8> {
    seq![
        QMK_CUSTOM_SET_COMMAND,
        QMK_CUSTOM_CHANNEL,
        QMK_COMMAND_MATRIX_BRIGHTNESS,
        (base + c.0) as u8,
        c.1.len() as u8,
    ] + c.1 + zeros(27 - c.1.len())
}

/// The payload of a single-value SET on the RGB-matrix channel.
pub open spec fn rgb_setting_payload(cmd: u8, values: Seq<u8>) -> Seq<u8> {
    seq![QMK_CUSTOM_SET_COMMAND, QMK_RGB_MATRIX_CHANNEL, cmd] + values + zeros(
        29 - values.len(),
    )
}

/// The new chroma plane a colour list writes over a window of the old one:
/// explicit colours are converted to 8-bit HSV, sentinels keep the old
/// entry.
pub open spec fn new_chroma_of(
    old_chroma: Seq<(u8, u8)>,
    colors: Seq<Option<(u8, u8, u8)>>,
    offset: int,
) -> Seq<(u8, u8)> {
    Seq::new(
        colors.len(),
        |i: int|
            match colors[i] {
                Some(rgb) => {
                    let hsv = hsv8_of_rgb(rgb.0, rgb.1, rgb.2);
                    (hsv.0, hsv.1)
                },
                None => old_chroma[offset + i],
            },
    )
}

/// The new value plane a colour list writes over a window of the old one.
pub open spec fn new_value_of(
    old_value: Seq<u8>,
    colors: Seq<Option<(u8, u8, u8)>>,
    offset: int,
) -> Seq<u8> {
    Seq::new(
        colors.len(),
        |i: int|
            match colors[i] {
                Some(rgb) => hsv8_of_rgb(rgb.0, rgb.1, rgb.2).2,
                None => old_value[offset + i],
            },
    )
}

/// The chroma reports a window update emits: one per chunk of the
/// difference against the cached plane, windows of 13 pairs.
pub open spec fn chroma_reports_of(
    old_chroma: Seq<(u8, u8)>,
    colors: Seq<Option<(u8, u8, u8)>>,
    offset: int,
) -> Seq<Seq<u8>> {
    let cks = spec_chunks(
        new_chroma_of(old_chroma, colors, offset),
        old_chroma.skip(offset),
        13,
        0,
    );
    Seq::new(cks.len(), |k: int| chroma_set_payload(offset, cks[k]))
}

/// The brightness reports a window update emits, windows of 27 values.
pub open spec fn value_reports_of(
    old_value: Seq<u8>,
    colors: Seq<Option<(u8, u8, u8)>>,
    offset: int,
) -> Seq<Seq<u8>> {
    let cks = spec_chunks(new_value_of(old_value, colors, offset), old_value.skip(offset), 27, 0);
    Seq::new(cks.len(), |k: int| value_set_payload(offset, cks[k]))
}

/// A controller for one keyboard: its description, its keymap, and the
/// cached device state.
pub struct Keyboard {
    config: Config,
    keymap: Vec<u16>,
    state: KeyboardState,
}

impl Keyboard {
    /// The parts fit: the colour planes are as long as the LED buffer and
    /// the keymap covers the matrix.
    pub closed spec fn wf(&self) -> bool {
        &&& self.state.chroma@.len() == spec_count_leds(self.config.leds@)
        &&& self.state.value@.len() == spec_count_leds(self.config.leds@)
        &&& self.keymap@.len() == self.config.matrix.0 * self.config.matrix.1
        &&& self.config.wf()
    }

    pub closed spec fn spec_config(&self) -> Config {
        self.config
    }

    pub closed spec fn spec_keymap(&self) -> Seq<u16> {
        self.keymap@
    }

    pub closed spec fn spec_state(&self) -> StateV {
        self.state@
    }

    /// Assembles a controller, refusing parts that do not fit together.
    pub fn from_parts(config: Config, keymap: Vec<u16>, state: KeyboardState) -> (r: Result<
        Keyboard,
        KeyboardError,
    >)
        ensures
            r is Ok <==> (config.wf() && state.chroma@.len() == spec_count_leds(config.leds@)
                && state.value@.len() == spec_count_leds(config.leds@) && keymap@.len()
                == config.matrix.0 * config.matrix.1),
            match r {
                Ok(k) => k.wf() && k.spec_config() == config && k.spec_keymap() == keymap@
                    && k.spec_state() == state@,
                Err(e) => e == KeyboardError::Mismatch,
            },
    {
        let leds = config.count_leds();
        if !config.well_formed() {
            return Err(KeyboardError::Mismatch);
        }
        if state.chroma.len() != leds as usize || state.value.len() != leds as usize {
            return Err(KeyboardError::Mismatch);
        }
        let rows = config.matrix.1 as u64;
        let cols = config.matrix.0 as u64;
        if keymap.len() as u64 != cols * rows {
            return Err(KeyboardError::Mismatch);
        }
        Ok(Keyboard { config, keymap, state })
    }

    pub fn keymap(&self) -> (r: &Vec<u16>)
        ensures
            r@ == self.spec_keymap(),
    {
        &self.keymap
    }

    pub fn config(&self) -> (r: &Config)
        ensures
            *r == self.spec_config(),
    {
        &self.config
    }

    pub fn effect(&self) -> (r: u8)
        ensures
            r == self.spec_state().effect,
    {
        self.state.effect
    }

    pub fn speed(&self) -> (r: u8)
        ensures
            r == self.spec_state().speed,
    {
        self.state.speed
    }

    pub fn brightness(&self) -> (r: u8)
        ensures
            r == self.spec_state().brightness,
    {
        self.state.brightness
    }

    /// The mode-global colour, converted back to RGB at full value.
    pub fn color(&self) -> (r: (u8, u8, u8))
        ensures
            r == rgb8_of_hsv(self.spec_state().color.0, self.spec_state().color.1, 255),
    {
        hsv_to_rgb8(self.state.color.0, self.state.color.1, 255)
    }

    /// The per-LED colours, converted back to RGB.
    pub fn colors(&self) -> (r: Vec<(u8, u8, u8)>)
        requires
            self.wf(),
        ensures
            r@ =~= Seq::new(
                self.spec_state().chroma.len(),
                |i: int| rgb8_of_hsv(
                    self.spec_state().chroma[i].0,
                    self.spec_state().chroma[i].1,
                    self.spec_state().value[i],
                ),
            ),
    {
        let mut out: Vec<(u8, u8, u8)> = Vec::new();
        let mut i: usize = 0;
        while i < self.state.chroma.len()
            invariant
                i <= self.state.chroma@.len(),
                self.state.value@.len() == self.state.chroma@.len(),
                out@.len() == i,
                forall|j: int|
                    0 <= j < i ==> out@[j] == rgb8_of_hsv(
                        self.state.chroma@[j].0,
                        self.state.chroma@[j].1,
                        self.state.value@[j],
                    ),
            decreases self.state.chroma@.len() - i,
        {
            let (h, s) = self.state.chroma[i];
            let v = self.state.value[i];
            out.push(hsv_to_rgb8(h, s, v));
            i = i + 1;
        }
        out
    }

    /// The saved form of the cached state.
    pub fn save_state(&self) -> (r: Vec<u8>)
        ensures
            r@ == emit_state(self.spec_state()),
    {
        self.state.save_state()
    }

}

proof fn lemma_flat_pairs_push(l: Seq<(u8, u8)>, p: (u8, u8))
    ensures
        flat_pairs(l.push(p)) =~= flat_pairs(l) + seq![p.0, p.1],
    decreases l.len(),
{
    if l.len() == 0 {
        assert(l.push(p)[0] == p);
        assert(l.push(p).skip(1) =~= Seq::<(u8, u8)>::empty());
        assert(flat_pairs(Seq::<(u8, u8)>::empty()) == Seq::<u8>::empty());
    } else {
        assert(l.push(p)[0] == l[0]);
        assert(l.push(p).skip(1) =~= l.skip(1).push(p));
        lemma_flat_pairs_push(l.skip(1), p);
        assert(flat_pairs(l.push(p)) =~= seq![l[0].0, l[0].1] + (flat_pairs(l.skip(1)) + seq![
            p.0,
            p.1,
        ]));
        assert(flat_pairs(l) + seq![p.0, p.1] =~= seq![l[0].0, l[0].1] + (flat_pairs(l.skip(1))
            + seq![p.0, p.1]));
    }
}

/// The pairs of a chunk, flattened to bytes.
fn flatten_pairs(data: &Vec<(u8, u8)>) -> (r: Vec<u8>)
    ensures
        r@ =~= flat_pairs(data@),
        r@.len() == 2 * data@.len(),
{
    let mut out: Vec<u8> = Vec::new();
    let mut j: usize = 0;
    while j < data.len()
        invariant
            j <= data@.len(),
            out@ =~= flat_pairs(data@.subrange(0, j as int)),
            out@.len() == 2 * j,
        decreases data@.len() - j,
    {
        let (h, sat) = data[j];
        out.push(h);
        out.push(sat);
        proof {
            assert(data@.subrange(0, j + 1) =~= data@.subrange(0, j as int).push(
                data@[j as int],
            ));
            lemma_flat_pairs_push(data@.subrange(0, j as int), data@[j as int]);
        }
        j = j + 1;
    }
    proof {
        assert(data@.subrange(0, data@.len() as int) =~= data@);
    }
    out
}

impl Keyboard {
    /// Writes a window of per-LED colours: converts them to 8-bit HSV,
    /// chunks the difference against the cached planes, updates the cache,
    /// and returns the chroma reports followed, where brightness may be
    /// touched, by the brightness reports.
    #[verifier::rlimit(100)]
    #[verifier::spinoff_prover]
    pub fn update_colors(
        &mut self,
        colors: Vec<Option<(u8, u8, u8)>>,
        offset: usize,
        with_brightness: bool,
    ) -> (r: Result<Vec<Report<33>>, KeyboardError>)
        requires
            old(self).wf(),
        ensures
            final(self).spec_config() == old(self).spec_config(),
            final(self).spec_keymap() == old(self).spec_keymap(),
            final(self).wf(),
            offset + colors@.len() > old(self).spec_state().chroma.len() ==> (r matches Err(e)
                && e == KeyboardError::OutOfRange && final(self).spec_state() == old(
                self,
            ).spec_state()),
            offset + colors@.len() <= old(self).spec_state().chroma.len() ==> (r matches Ok(reps)
                && {
                let st0 = old(self).spec_state();
                let nc = new_chroma_of(st0.chroma, colors@, offset as int);
                let nv = new_value_of(st0.value, colors@, offset as int);
                &&& final(self).spec_state().chroma =~= st0.chroma.subrange(0, offset as int)
                    + nc + st0.chroma.skip(offset + colors@.len())
                &&& final(self).spec_state().value =~= (if with_brightness {
                    st0.value.subrange(0, offset as int) + nv + st0.value.skip(
                        offset + colors@.len(),
                    )
                } else {
                    st0.value
                })
                &&& final(self).spec_state().color == st0.color
                &&& final(self).spec_state().brightness == st0.brightness
                &&& final(self).spec_state().effect == st0.effect
                &&& final(self).spec_state().speed == st0.speed
                &&& reps@.map_values(|rp: Report<33>| rp@) =~= chroma_reports_of(
                    st0.chroma,
                    colors@,
                    offset as int,
                ) + (if with_brightness {
                    value_reports_of(st0.value, colors@, offset as int)
                } else {
                    Seq::empty()
                })
            }),
    {
        let n = self.state.chroma.len();
        if offset > n || colors.len() > n - offset {
            return Err(KeyboardError::OutOfRange);
        }
        let ghost st0 = self.state@;
        proof {
            crate::config::lemma_count_leds_bound(self.config.leds@);
            crate::chunks::lemma_plain_eq_u8();
            crate::chunks::lemma_plain_eq_u8_pair();
        }

        let mut nc: Vec<(u8, u8)> = Vec::new();
        let mut nv: Vec<u8> = Vec::new();
        let mut i: usize = 0;
        while i < colors.len()
            invariant
                i <= colors@.len(),
                offset + colors@.len() <= self.state.chroma@.len(),
                self.state.chroma@.len() == self.state.value@.len(),
                self.state.chroma@ == st0.chroma,
                self.state.value@ == st0.value,
                nc@.len() == i,
                nv@.len() == i,
                forall|j: int|
                    0 <= j < i ==> nc@[j] == new_chroma_of(st0.chroma, colors@, offset as int)[j],
                forall|j: int|
                    0 <= j < i ==> nv@[j] == new_value_of(st0.value, colors@, offset as int)[j],
            decreases colors@.len() - i,
        {
            let nn = self.state.chroma.len();
            proof {
                assert(offset + i < nn);
            }
            match colors[i] {
                Some(rgb) => {
                    let hsv = rgb_to_hsv8(rgb.0, rgb.1, rgb.2);
                    nc.push((hsv.0, hsv.1));
                    nv.push(hsv.2);
                },
                None => {
                    nc.push(self.state.chroma[offset + i]);
                    nv.push(self.state.value[offset + i]);
                },
            }
            i = i + 1;
        }
        proof {
            assert(nc@ =~= new_chroma_of(st0.chroma, colors@, offset as int));
            assert(nv@ =~= new_value_of(st0.value, colors@, offset as int));
        }

        let ref_chroma = vec_suffix(&self.state.chroma, offset);
        let ref_value = vec_suffix(&self.state.value, offset);
        let chroma_chunks = chunk_changed_list(nc.as_slice(), ref_chroma.as_slice(), 13);
        let ghost spec_c_chunks = spec_chunks(nc@, st0.chroma.skip(offset as int), 13, 0);
        proof {
            crate::chunks::lemma_chunks_wf(nc@, st0.chroma.skip(offset as int), 13, 0);
        }

        let mut reps: Vec<Report<33>> = Vec::new();
        let mut k: usize = 0;
        while k < chroma_chunks.len()
            invariant
                k <= chroma_chunks@.len(),
                chunks_view(chroma_chunks@) == spec_c_chunks,
                offset + nc@.len() <= st0.chroma.len() <= 256,
                nc@.len() <= st0.chroma.skip(offset as int).len(),
                forall|x: int|
                    0 <= x < spec_c_chunks.len() ==> crate::chunks::chunk_wf(
                        nc@,
                        st0.chroma.skip(offset as int),
                        13,
                        #[trigger] spec_c_chunks[x],
                    ),
                reps@.len() == k,
                forall|x: int|
                    0 <= x < k ==> (#[trigger] reps@[x])@ == chroma_set_payload(
                        offset as int,
                        spec_c_chunks[x],
                    ),
            decreases chroma_chunks@.len() - k,
        {
            let (local, data) = (chroma_chunks[k].0, &chroma_chunks[k].1);
            proof {
                assert(chunks_view(chroma_chunks@)[k as int] == (local as int, data@));
                assert(crate::chunks::chunk_wf(
                    nc@,
                    st0.chroma.skip(offset as int),
                    13,
                    (local as int, data@),
                ));
            }
            let mut rep: Report<33> = Report::new();
            rep.set(0, QMK_CUSTOM_SET_COMMAND);
            rep.set(1, QMK_CUSTOM_CHANNEL);
            rep.set(2, QMK_COMMAND_MATRIX_CHROMA);
            rep.set(3, (local + offset) as u8);
            rep.set(4, data.len() as u8);
            let payload = flatten_pairs(data);
            rep.set_range(5, payload.as_slice());
            proof {
                assert(rep@ =~= chroma_set_payload(offset as int, (local as int, data@)));
            }
            reps.push(rep);
            k = k + 1;
        }
        proof {
            assert(reps@.map_values(|rp: Report<33>| rp@) =~= chroma_reports_of(
                st0.chroma,
                colors@,
                offset as int,
            ));
        }
        let ghost chroma_only = reps@;

        if with_brightness {
            let value_chunks = chunk_changed_list(nv.as_slice(), ref_value.as_slice(), 27);
            let ghost spec_v_chunks = spec_chunks(nv@, st0.value.skip(offset as int), 27, 0);
            proof {
                crate::chunks::lemma_chunks_wf(nv@, st0.value.skip(offset as int), 27, 0);
            }
            let mut k2: usize = 0;
            while k2 < value_chunks.len()
                invariant
                    k2 <= value_chunks@.len(),
                    chunks_view(value_chunks@) == spec_v_chunks,
                    offset + nv@.len() <= st0.value.len() <= 256,
                    nv@.len() <= st0.value.skip(offset as int).len(),
                    forall|x: int|
                        0 <= x < spec_v_chunks.len() ==> crate::chunks::chunk_wf(
                            nv@,
                            st0.value.skip(offset as int),
                            27,
                            #[trigger] spec_v_chunks[x],
                        ),
                    reps@.len() == chroma_only.len() + k2,
                    forall|x: int| 0 <= x < chroma_only.len() ==> reps@[x] == chroma_only[x],
                    forall|x: int|
                        0 <= x < k2 ==> (#[trigger] reps@[chroma_only.len() + x])@
                            == value_set_payload(offset as int, spec_v_chunks[x]),
                decreases value_chunks@.len() - k2,
            {
                let (local, data) = (value_chunks[k2].0, &value_chunks[k2].1);
                proof {
                    assert(chunks_view(value_chunks@)[k2 as int] == (local as int, data@));
                    assert(crate::chunks::chunk_wf(
                        nv@,
                        st0.value.skip(offset as int),
                        27,
                        (local as int, data@),
                    ));
                }
                let mut rep: Report<33> = Report::new();
                rep.set(0, QMK_CUSTOM_SET_COMMAND);
                rep.set(1, QMK_CUSTOM_CHANNEL);
                rep.set(2, QMK_COMMAND_MATRIX_BRIGHTNESS);
                rep.set(3, (local + offset) as u8);
                rep.set(4, data.len() as u8);
                rep.set_range(5, data.as_slice());
                proof {
                    assert(1 <= data@.len() <= 27);
                    assert(rep@.len() == 32);
                    assert(value_set_payload(offset as int, (local as int, data@)).len() == 32);
                    assert(rep@ =~= value_set_payload(offset as int, (local as int, data@)));
                }
                reps.push(rep);
                k2 = k2 + 1;
            }
            proof {
                let f = |rp: Report<33>| rp@;
                let lhs = reps@.map_values(f);
                let rhs = chroma_reports_of(st0.chroma, colors@, offset as int)
                    + value_reports_of(st0.value, colors@, offset as int);
                assert(new_value_of(st0.value, colors@, offset as int) == nv@);
                assert(value_reports_of(st0.value, colors@, offset as int) =~= Seq::new(
                    spec_v_chunks.len(),
                    |x: int| value_set_payload(offset as int, spec_v_chunks[x]),
                ));
                assert(lhs.len() == rhs.len());
                assert forall|x: int| 0 <= x < lhs.len() implies lhs[x] == rhs[x] by {
                    assert(lhs[x] == reps@[x]@);
                    if x < chroma_only.len() {
                        assert(reps@[x] == chroma_only[x]);
                        assert(chroma_only.map_values(f)[x] == chroma_only[x]@);
                    } else {
                        let y = x - chroma_only.len();
                        assert(reps@[chroma_only.len() + y]@ == value_set_payload(
                            offset as int,
                            spec_v_chunks[y],
                        ));
                        assert(rhs[x] == value_reports_of(st0.value, colors@, offset as int)[y]);
                    }
                }
                assert(lhs =~= rhs);
            }
        }

        crate::utils::vec_splice(&mut self.state.chroma, offset, &nc);
        if with_brightness {
            crate::utils::vec_splice(&mut self.state.value, offset, &nv);
        }
        proof {
            if !with_brightness {
                assert(reps@.map_values(|rp: Report<33>| rp@) =~= chroma_reports_of(
                    st0.chroma,
                    colors@,
                    offset as int,
                ) + Seq::<Seq<u8>>::empty());
            }
        }
        Ok(reps)
    }

    /// The reports that push every LED's brightness back to full, computed
    /// against the cached value plane; the cache itself is left as it is.
    pub fn reset_brightness(&self) -> (r: Vec<Report<33>>)
        requires
            self.wf(),
        ensures
            ({
                let cks = spec_chunks(
                    Seq::new(self.spec_state().value.len(), |i: int| 255u8),
                    self.spec_state().value,
                    27,
                    0,
                );
                r@.map_values(|rp: Report<33>| rp@) =~= Seq::new(
                    cks.len(),
                    |k: int| value_set_payload(0, cks[k]),
                )
            }),
    {
        let ghost st0 = self.state@;
        proof {
            crate::config::lemma_count_leds_bound(self.config.leds@);
            crate::chunks::lemma_plain_eq_u8();
        }
        let mut full: Vec<u8> = Vec::new();
        let mut i: usize = 0;
        while i < self.state.value.len()
            invariant
                i <= self.state.value@.len(),
                self.state.value@ == st0.value,
                full@ =~= Seq::new(i as nat, |j: int| 255u8),
            decreases self.state.value@.len() - i,
        {
            full.push(255);
            proof {
                assert(full@ =~= Seq::new((i + 1) as nat, |j: int| 255u8));
            }
            i = i + 1;
        }
        let value_chunks = chunk_changed_list(full.as_slice(), self.state.value.as_slice(), 27);
        let ghost spec_v_chunks = spec_chunks(full@, st0.value, 27, 0);
        proof {
            crate::chunks::lemma_chunks_wf(full@, st0.value, 27, 0);
        }
        let mut reps: Vec<Report<33>> = Vec::new();
        let mut k: usize = 0;
        while k < value_chunks.len()
            invariant
                k <= value_chunks@.len(),
                chunks_view(value_chunks@) == spec_v_chunks,
                full@.len() == st0.value.len() <= 256,
                forall|x: int|
                    0 <= x < spec_v_chunks.len() ==> crate::chunks::chunk_wf(
                        full@,
                        st0.value,
                        27,
                        #[trigger] spec_v_chunks[x],
                    ),
                reps@.len() == k,
                forall|x: int|
                    0 <= x < k ==> (#[trigger] reps@[x])@ == value_set_payload(
                        0,
                        spec_v_chunks[x],
                    ),
            decreases value_chunks@.len() - k,
        {
            let (local, data) = (value_chunks[k].0, &value_chunks[k].1);
            proof {
                assert(chunks_view(value_chunks@)[k as int] == (local as int, data@));
                assert(crate::chunks::chunk_wf(full@, st0.value, 27, (local as int, data@)));
            }
            let mut rep: Report<33> = Report::new();
            rep.set(0, QMK_CUSTOM_SET_COMMAND);
            rep.set(1, QMK_CUSTOM_CHANNEL);
            rep.set(2, QMK_COMMAND_MATRIX_BRIGHTNESS);
            rep.set(3, local as u8);
            rep.set(4, data.len() as u8);
            rep.set_range(5, data.as_slice());
            proof {
                assert(rep@ =~= value_set_payload(0, (local as int, data@)));
            }
            reps.push(rep);
            k = k + 1;
        }
        proof {
            assert(reps@.map_values(|rp: Report<33>| rp@) =~= Seq::new(
                spec_v_chunks.len(),
                |x: int| value_set_payload(0, spec_v_chunks[x]),
            ));
        }
        reps
    }

    /// Sets the active effect where it changed; the report to send, if any.
    pub fn update_effect(&mut self, effect: u8) -> (r: Option<Report<33>>)
        ensures
            final(self).spec_config() == old(self).spec_config(),
            final(self).spec_keymap() == old(self).spec_keymap(),
            final(self).wf() == old(self).wf(),
            effect == old(self).spec_state().effect ==> r is None && final(self).spec_state()
                == old(self).spec_state(),
            effect != old(self).spec_state().effect ==> {
                &&& final(self).spec_state() == (StateV { effect, ..old(self).spec_state() })
                &&& r matches Some(rep) && rep@ =~= rgb_setting_payload(
                    QMK_COMMAND_EFFECT,
                    seq![effect],
                )
            },
    {
        if effect == self.state.effect {
            return None;
        }
        self.state.effect = effect;
        let mut rep: Report<33> = Report::new();
        rep.set(0, QMK_CUSTOM_SET_COMMAND);
        rep.set(1, QMK_RGB_MATRIX_CHANNEL);
        rep.set(2, QMK_COMMAND_EFFECT);
        rep.set(3, effect);
        proof {
            assert(rep@ =~= rgb_setting_payload(QMK_COMMAND_EFFECT, seq![effect]));
        }
        Some(rep)
    }

    /// Sets the effect speed where it changed; the report to send, if any.
    pub fn update_speed(&mut self, speed: u8) -> (r: Option<Report<33>>)
        ensures
            final(self).spec_config() == old(self).spec_config(),
            final(self).spec_keymap() == old(self).spec_keymap(),
            final(self).wf() == old(self).wf(),
            speed == old(self).spec_state().speed ==> r is None && final(self).spec_state()
                == old(self).spec_state(),
            speed != old(self).spec_state().speed ==> {
                &&& final(self).spec_state() == (StateV { speed, ..old(self).spec_state() })
                &&& r matches Some(rep) && rep@ =~= rgb_setting_payload(
                    QMK_COMMAND_SPEED,
                    seq![speed],
                )
            },
    {
        if speed == self.state.speed {
            return None;
        }
        self.state.speed = speed;
        let mut rep: Report<33> = Report::new();
        rep.set(0, QMK_CUSTOM_SET_COMMAND);
        rep.set(1, QMK_RGB_MATRIX_CHANNEL);
        rep.set(2, QMK_COMMAND_SPEED);
        rep.set(3, speed);
        proof {
            assert(rep@ =~= rgb_setting_payload(QMK_COMMAND_SPEED, seq![speed]));
        }
        Some(rep)
    }

    /// Sets the global brightness where it changed; the report to send, if
    /// any.
    pub fn update_brightness(&mut self, brightness: u8) -> (r: Option<Report<33>>)
        ensures
            final(self).spec_config() == old(self).spec_config(),
            final(self).spec_keymap() == old(self).spec_keymap(),
            final(self).wf() == old(self).wf(),
            brightness == old(self).spec_state().brightness ==> r is None
                && final(self).spec_state() == old(self).spec_state(),
            brightness != old(self).spec_state().brightness ==> {
                &&& final(self).spec_state() == (StateV { brightness, ..old(self).spec_state() })
                &&& r matches Some(rep) && rep@ =~= rgb_setting_payload(
                    QMK_COMMAND_BRIGHTNESS,
                    seq![brightness],
                )
            },
    {
        if brightness == self.state.brightness {
            return None;
        }
        self.state.brightness = brightness;
        let mut rep: Report<33> = Report::new();
        rep.set(0, QMK_CUSTOM_SET_COMMAND);
        rep.set(1, QMK_RGB_MATRIX_CHANNEL);
        rep.set(2, QMK_COMMAND_BRIGHTNESS);
        rep.set(3, brightness);
        proof {
            assert(rep@ =~= rgb_setting_payload(QMK_COMMAND_BRIGHTNESS, seq![brightness]));
        }
        Some(rep)
    }

    /// Sets the mode-global colour where its hue or saturation changed; the
    /// report to send, if any.
    pub fn update_color(&mut self, color: (u8, u8, u8)) -> (r: Option<Report<33>>)
        ensures
            final(self).spec_config() == old(self).spec_config(),
            final(self).spec_keymap() == old(self).spec_keymap(),
            final(self).wf() == old(self).wf(),
            ({
                let hsv = hsv8_of_rgb(color.0, color.1, color.2);
                let chroma = (hsv.0, hsv.1);
                if chroma == old(self).spec_state().color {
                    r is None && final(self).spec_state() == old(self).spec_state()
                } else {
                    &&& final(self).spec_state() == (StateV {
                        color: chroma,
                        ..old(self).spec_state()
                    })
                    &&& r matches Some(rep) && rep@ =~= rgb_setting_payload(
                        QMK_COMMAND_COLOR,
                        seq![hsv.0, hsv.1],
                    )
                }
            }),
    {
        let hsv = rgb_to_hsv8(color.0, color.1, color.2);
        if hsv.0 == self.state.color.0 && hsv.1 == self.state.color.1 {
            return None;
        }
        self.state.color = (hsv.0, hsv.1);
        let mut rep: Report<33> = Report::new();
        rep.set(0, QMK_CUSTOM_SET_COMMAND);
        rep.set(1, QMK_RGB_MATRIX_CHANNEL);
        rep.set(2, QMK_COMMAND_COLOR);
        rep.set(3, hsv.0);
        rep.set(4, hsv.1);
        proof {
            assert(rep@ =~= rgb_setting_payload(QMK_COMMAND_COLOR, seq![hsv.0, hsv.1]));
        }
        Some(rep)
    }

    /// The colour list a saved state reloads: each LED's saved HSV converted
    /// back to RGB; the two planes are walked in step.
    pub open spec fn loaded_colors(pv: StateV) -> Seq<Option<(u8, u8, u8)>> {
        let n = if pv.chroma.len() <= pv.value.len() {
            pv.chroma.len()
        } else {
            pv.value.len()
        };
        Seq::new(
            n as nat,
            |i: int| Some(rgb8_of_hsv(pv.chroma[i].0, pv.chroma[i].1, pv.value[i])),
        )
    }

    /// Reloads a saved state: replays the colours, the mode colour, the
    /// effect, the speed and the brightness, in that order, and returns
    /// every report the replay emits.
    #[verifier::rlimit(100)]
    #[verifier::spinoff_prover]
    pub fn load_state(&mut self, data: &[u8], with_brightness: bool) -> (r: Result<
        Vec<Report<33>>,
        KeyboardError,
    >)
        requires
            old(self).wf(),
        ensures
            final(self).spec_config() == old(self).spec_config(),
            final(self).spec_keymap() == old(self).spec_keymap(),
            final(self).wf(),
            spec_parse_state(data@) is None ==> r is Err && r->Err_0
                == KeyboardError::StateParse && final(self).spec_state() == old(
                self,
            ).spec_state(),
            spec_parse_state(data@) matches Some(pv) ==> ({
                let st0 = old(self).spec_state();
                let colors = Self::loaded_colors(pv);
                if colors.len() > st0.chroma.len() {
                    r is Err && r->Err_0 == KeyboardError::OutOfRange && final(self).spec_state()
                        == st0
                } else {
                    let hsv = hsv8_of_rgb(
                        rgb8_of_hsv(pv.color.0, pv.color.1, 255).0,
                        rgb8_of_hsv(pv.color.0, pv.color.1, 255).1,
                        rgb8_of_hsv(pv.color.0, pv.color.1, 255).2,
                    );
                    &&& r is Ok
                    &&& ({ let reps = r->Ok_0;
                    &&& final(self).spec_state().chroma =~= st0.chroma.subrange(0, 0)
                        + new_chroma_of(st0.chroma, colors, 0) + st0.chroma.skip(
                        colors.len() as int,
                    )
                    &&& final(self).spec_state().value =~= (if with_brightness {
                        new_value_of(st0.value, colors, 0) + st0.value.skip(colors.len() as int)
                    } else {
                        st0.value
                    })
                    &&& final(self).spec_state().color == ((hsv.0, hsv.1))
                    &&& final(self).spec_state().effect == pv.effect
                    &&& final(self).spec_state().speed == pv.speed
                    &&& final(self).spec_state().brightness == pv.brightness
                    &&& reps@.map_values(|rp: Report<33>| rp@) =~= chroma_reports_of(
                        st0.chroma,
                        colors,
                        0,
                    ) + (if with_brightness {
                        value_reports_of(st0.value, colors, 0)
                    } else {
                        Seq::empty()
                    }) + (if (hsv.0, hsv.1) != st0.color {
                        seq![rgb_setting_payload(QMK_COMMAND_COLOR, seq![hsv.0, hsv.1])]
                    } else {
                        Seq::empty()
                    }) + (if pv.effect != st0.effect {
                        seq![rgb_setting_payload(QMK_COMMAND_EFFECT, seq![pv.effect])]
                    } else {
                        Seq::empty()
                    }) + (if pv.speed != st0.speed {
                        seq![rgb_setting_payload(QMK_COMMAND_SPEED, seq![pv.speed])]
                    } else {
                        Seq::empty()
                    }) + (if pv.brightness != st0.brightness {
                        seq![rgb_setting_payload(QMK_COMMAND_BRIGHTNESS, seq![pv.brightness])]
                    } else {
                        Seq::empty()
                    })
                    })
                }
            }),
    {
        let parsed = match KeyboardState::parse_state(data) {
            Some(st) => st,
            None => {
                return Err(KeyboardError::StateParse);
            },
        };
        let ghost pv = parsed@;
        let ghost st0 = self.state@;
        let n = if parsed.chroma.len() <= parsed.value.len() {
            parsed.chroma.len()
        } else {
            parsed.value.len()
        };
        let mut colors: Vec<Option<(u8, u8, u8)>> = Vec::new();
        let mut i: usize = 0;
        while i < n
            invariant
                i <= n,
                n <= parsed.chroma@.len(),
                n <= parsed.value@.len(),
                parsed@ == pv,
                colors@.len() == i,
                forall|j: int| 0 <= j < i ==> colors@[j] == Self::loaded_colors(pv)[j],
            decreases n - i,
        {
            let (h, sat) = parsed.chroma[i];
            let v = parsed.value[i];
            colors.push(Some(hsv_to_rgb8(h, sat, v)));
            i = i + 1;
        }
        proof {
            assert(colors@ =~= Self::loaded_colors(pv));
        }
        let mut reps = match self.update_colors(colors, 0, with_brightness) {
            Ok(rs) => rs,
            Err(_) => {
                return Err(KeyboardError::OutOfRange);
            },
        };
        let ghost after_colors = reps@;
        let rgb = hsv_to_rgb8(parsed.color.0, parsed.color.1, 255);
        match self.update_color(rgb) {
            Some(rep) => {
                reps.push(rep);
            },
            None => {},
        }
        let ghost after_color = reps@;
        match self.update_effect(parsed.effect) {
            Some(rep) => {
                reps.push(rep);
            },
            None => {},
        }
        let ghost after_effect = reps@;
        match self.update_speed(parsed.speed) {
            Some(rep) => {
                reps.push(rep);
            },
            None => {},
        }
        let ghost after_speed = reps@;
        match self.update_brightness(parsed.brightness) {
            Some(rep) => {
                reps.push(rep);
            },
            None => {},
        }
        proof {
            let f = |rp: Report<33>| rp@;
            assert(reps@.map_values(f) =~= after_colors.map_values(f) + (reps@.map_values(
                f,
            ).skip(after_colors.len() as int)));
        }
        Ok(reps)
    }

    /// The report that reads one RGB-matrix setting back.
    pub fn state_read_report(cmd: u8) -> (r: Report<33>)
        ensures
            r@ =~= seq![QMK_CUSTOM_GET_COMMAND, QMK_RGB_MATRIX_CHANNEL, cmd] + zeros(29),
    {
        let mut rep: Report<33> = Report::new();
        rep.set(0, QMK_CUSTOM_GET_COMMAND);
        rep.set(1, QMK_RGB_MATRIX_CHANNEL);
        rep.set(2, cmd);
        rep
    }

    /// The report that tells the device to persist its state.
    pub fn persist_state(&self) -> (r: Report<33>)
        ensures
            r@ =~= seq![QMK_CUSTOM_SAVE_COMMAND, QMK_RGB_MATRIX_CHANNEL] + zeros(30),
    {
        let mut rep: Report<33> = Report::new();
        rep.set(0, QMK_CUSTOM_SAVE_COMMAND);
        rep.set(1, QMK_RGB_MATRIX_CHANNEL);
        rep
    }
}

/// The GET reports that read a plane of `count` LED slots back, windows of
/// `cs` slots.
pub open spec fn plane_read_reports(cmd: u8, cs: int, count: int) -> Seq<Seq<u8>> {
    Seq::new(
        (if count == 0 {
            0
        } else {
            (count + cs - 1) / cs
        }) as nat,
        |i: int|
            seq![
                QMK_CUSTOM_GET_COMMAND,
                QMK_CUSTOM_CHANNEL,
                cmd,
                (i * cs) as u8,
                (if count - i * cs <= cs {
                    count - i * cs
                } else {
                    cs
                }) as u8,
            ] + zeros(27),
    )
}

/// The GET reports that read the colour planes of `count` LEDs back: the
/// chroma plane in windows of 13, then the value plane in windows of 27.
pub fn color_read_reports(count: usize) -> (r: Vec<Report<33>>)
    requires
        count <= 256,
    ensures
        r@.map_values(|rp: Report<33>| rp@) =~= plane_read_reports(
            QMK_COMMAND_MATRIX_CHROMA,
            13,
            count as int,
        ) + plane_read_reports(QMK_COMMAND_MATRIX_BRIGHTNESS, 27, count as int),
{
    let mut reps: Vec<Report<33>> = Vec::new();
    let ghost chroma_spec = plane_read_reports(QMK_COMMAND_MATRIX_CHROMA, 13, count as int);
    let ghost value_spec = plane_read_reports(QMK_COMMAND_MATRIX_BRIGHTNESS, 27, count as int);
    let n1: usize = if count == 0 {
        0
    } else {
        (count + 12) / 13
    };
    proof {
        assert(chroma_spec.len() == n1);
    }
    let mut i: usize = 0;
    while i < n1
        invariant
            i <= n1,
            count <= 256,
            n1 == chroma_spec.len(),
            chroma_spec == plane_read_reports(QMK_COMMAND_MATRIX_CHROMA, 13, count as int),
            n1 == (if count == 0 { 0int } else { (count + 12) / 13 }),
            reps@.len() == i,
            forall|x: int| 0 <= x < i ==> (#[trigger] reps@[x])@ == chroma_spec[x],
        decreases n1 - i,
    {
        let off = i * 13;
        proof {
            assert(i < (count + 12) / 13);
            assert(i * 13 < count) by (nonlinear_arith)
                requires
                    i < (count + 12int) / 13 && count >= 0,
            ;
        }
        let cnt: usize = if count - off <= 13 {
            count - off
        } else {
            13
        };
        let mut rep: Report<33> = Report::new();
        rep.set(0, QMK_CUSTOM_GET_COMMAND);
        rep.set(1, QMK_CUSTOM_CHANNEL);
        rep.set(2, QMK_COMMAND_MATRIX_CHROMA);
        rep.set(3, off as u8);
        rep.set(4, cnt as u8);
        proof {
            assert(rep@ =~= chroma_spec[i as int]);
        }
        reps.push(rep);
        i = i + 1;
    }
    let ghost chroma_only = reps@;
    let n2: usize = if count == 0 {
        0
    } else {
        (count + 26) / 27
    };
    proof {
        assert(value_spec.len() == n2);
    }
    let mut j: usize = 0;
    while j < n2
        invariant
            j <= n2,
            count <= 256,
            n2 == value_spec.len(),
            value_spec == plane_read_reports(QMK_COMMAND_MATRIX_BRIGHTNESS, 27, count as int),
            n2 == (if count == 0 { 0int } else { (count + 26) / 27 }),
            reps@.len() == chroma_only.len() + j,
            forall|x: int| 0 <= x < chroma_only.len() ==> reps@[x] == chroma_only[x],
            forall|x: int|
                0 <= x < j ==> (#[trigger] reps@[chroma_only.len() + x])@ == value_spec[x],
        decreases n2 - j,
    {
        let off = j * 27;
        proof {
            assert(j < (count + 26) / 27);
            assert(j * 27 < count) by (nonlinear_arith)
                requires
                    j < (count + 26int) / 27 && count >= 0,
            ;
        }
        let cnt: usize = if count - off <= 27 {
            count - off
        } else {
            27
        };
        let mut rep: Report<33> = Report::new();
        rep.set(0, QMK_CUSTOM_GET_COMMAND);
        rep.set(1, QMK_CUSTOM_CHANNEL);
        rep.set(2, QMK_COMMAND_MATRIX_BRIGHTNESS);
        rep.set(3, off as u8);
        rep.set(4, cnt as u8);
        proof {
            assert(rep@ =~= value_spec[j as int]);
        }
        reps.push(rep);
        j = j + 1;
    }
    proof {
        let f = |rp: Report<33>| rp@;
        assert(reps@.map_values(f).len() == chroma_spec.len() + value_spec.len());
        assert forall|x: int|
            0 <= x < reps@.len() implies reps@.map_values(f)[x] == (chroma_spec + value_spec)[x] by {
            if x < chroma_only.len() {
                assert(reps@[x] == chroma_only[x]);
            } else {
                let y = x - chroma_only.len();
                assert(reps@[chroma_only.len() + y]@ == value_spec[y]);
            }
        }
        assert(reps@.map_values(f) =~= chroma_spec + value_spec);
    }
    reps
}

/// Applies one colour-plane response: the echoed subcommand says which
/// plane, the echoed offset and count say which window; the data bytes fill
/// it.
pub fn apply_color_response(
    chroma: &mut Vec<(u8, u8)>,
    value: &mut Vec<u8>,
    resp: &[u8],
) -> (r: Result<(), KeyboardError>)
    requires
        resp@.len() == 33,
        old(chroma)@.len() == old(value)@.len(),
    ensures
        final(chroma)@.len() == old(chroma)@.len(),
        final(value)@.len() == old(value)@.len(),
        ({
            let off = resp@[3] as int;
            let cnt = resp@[4] as int;
            if resp@[2] == QMK_COMMAND_MATRIX_BRIGHTNESS {
                if off + cnt <= old(value)@.len() && 5 + cnt <= 33 {
                    &&& r is Ok
                    &&& final(chroma)@ == old(chroma)@
                    &&& final(value)@ =~= old(value)@.subrange(0, off) + resp@.subrange(
                        5,
                        5 + cnt,
                    ) + old(value)@.skip(off + cnt)
                } else {
                    r is Err && final(chroma)@ == old(chroma)@ && final(value)@ == old(value)@
                }
            } else {
                if off + cnt <= old(chroma)@.len() && 5 + 2 * cnt <= 33 {
                    &&& r is Ok
                    &&& final(value)@ == old(value)@
                    &&& final(chroma)@ =~= old(chroma)@.subrange(0, off) + Seq::new(
                        cnt as nat,
                        |k: int| (resp@[5 + 2 * k], resp@[6 + 2 * k]),
                    ) + old(chroma)@.skip(off + cnt)
                } else {
                    r is Err && final(chroma)@ == old(chroma)@ && final(value)@ == old(value)@
                }
            }
        }),
{
    let off = resp[3] as usize;
    let cnt = resp[4] as usize;
    if resp[2] == QMK_COMMAND_MATRIX_BRIGHTNESS {
        if off > value.len() || cnt > value.len() - off || cnt > 28 {
            return Err(KeyboardError::Response);
        }
        let mut k: usize = 0;
        while k < cnt
            invariant
                k <= cnt,
                off + cnt <= value@.len(),
                5 + cnt <= 33,
                resp@.len() == 33,
                value@.len() == old(value)@.len(),
                chroma@ == old(chroma)@,
                forall|j: int| 0 <= j < off ==> value@[j] == old(value)@[j],
                forall|j: int| 0 <= j < k ==> #[trigger] value@[off + j] == resp@[5 + j],
                forall|j: int| off + cnt <= j < value@.len() ==> value@[j] == old(value)@[j],
            decreases cnt - k,
        {
            let n = value.len();
            proof {
                assert(off + k < n);
            }
            value.set(off + k, resp[5 + k]);
            k = k + 1;
        }
        proof {
            let rhs = old(value)@.subrange(0, off as int) + resp@.subrange(5, 5 + cnt) + old(
                value,
            )@.skip(off + cnt);
            assert(value@.len() == rhs.len());
            assert forall|j: int| 0 <= j < value@.len() implies value@[j] == rhs[j] by {
                if off <= j < off + cnt {
                    assert(value@[off + (j - off)] == resp@[5 + (j - off)]);
                    assert(rhs[j] == resp@.subrange(5, 5 + cnt)[j - off]);
                }
            }
            assert(value@ =~= rhs);
        }
        Ok(())
    } else {
        if off > chroma.len() || cnt > chroma.len() - off || cnt > 14 {
            return Err(KeyboardError::Response);
        }
        let mut k: usize = 0;
        while k < cnt
            invariant
                k <= cnt,
                off + cnt <= chroma@.len(),
                5 + 2 * cnt <= 33,
                resp@.len() == 33,
                chroma@.len() == old(chroma)@.len(),
                value@ == old(value)@,
                forall|j: int| 0 <= j < off ==> chroma@[j] == old(chroma)@[j],
                forall|j: int|
                    0 <= j < k ==> #[trigger] chroma@[off + j] == (resp@[5 + 2 * j], resp@[6 + 2
                        * j]),
                forall|j: int| off + cnt <= j < chroma@.len() ==> chroma@[j] == old(chroma)@[j],
            decreases cnt - k,
        {
            let n = chroma.len();
            proof {
                assert(off + k < n);
            }
            chroma.set(off + k, (resp[5 + 2 * k], resp[6 + 2 * k]));
            k = k + 1;
        }
        proof {
            let mid = Seq::new(cnt as nat, |j: int| (resp@[5 + 2 * j], resp@[6 + 2 * j]));
            let rhs = old(chroma)@.subrange(0, off as int) + mid + old(chroma)@.skip(off + cnt);
            assert(chroma@.len() == rhs.len());
            assert forall|j: int| 0 <= j < chroma@.len() implies chroma@[j] == rhs[j] by {
                if off <= j < off + cnt {
                    assert(chroma@[off + (j - off)] == (resp@[5 + 2 * (j - off)], resp@[6 + 2 * (
                    j - off)]));
                    assert(rhs[j] == mid[j - off]);
                }
            }
            assert(chroma@ =~= rhs);
        }
        Ok(())
    }
}

/// The GET reports that read a keymap of `count` scancodes back, windows of
/// 28 bytes, byte offsets in big-endian.
pub open spec fn keymap_read_spec(count: int) -> Seq<Seq<u8>> {
    Seq::new(
        (if count == 0 {
            0
        } else {
            (2 * count + 27) / 28
        }) as nat,
        |i: int|
            seq![
                QMK_KEYMAP_GET_COMMAND,
                ((i * 28) / 256) as u8,
                ((i * 28) % 256) as u8,
                (if 2 * count - i * 28 <= 28 {
                    2 * count - i * 28
                } else {
                    28
                }) as u8,
            ] + zeros(28),
    )
}

/// The GET reports that read the keymap back.
pub fn keymap_read_reports(count: usize) -> (r: Vec<Report<33>>)
    requires
        2 * count <= 0xffff,
    ensures
        r@.map_values(|rp: Report<33>| rp@) =~= keymap_read_spec(count as int),
{
    let mut reps: Vec<Report<33>> = Vec::new();
    let ghost kspec = keymap_read_spec(count as int);
    let total = 2 * count;
    let n1: usize = if total == 0 {
        0
    } else {
        (total + 27) / 28
    };
    proof {
        assert(kspec.len() == n1);
    }
    let mut i: usize = 0;
    while i < n1
        invariant
            i <= n1,
            total == 2 * count <= 0xffff,
            n1 == kspec.len(),
            kspec == keymap_read_spec(count as int),
            n1 == (if total == 0 { 0int } else { (total + 27) / 28 }),
            reps@.len() == i,
            forall|x: int| 0 <= x < i ==> (#[trigger] reps@[x])@ == kspec[x],
        decreases n1 - i,
    {
        let off = i * 28;
        proof {
            assert(i < (total + 27) / 28);
            assert(i * 28 < total) by (nonlinear_arith)
                requires
                    i < (total + 27int) / 28 && total >= 0,
            ;
        }
        let cnt: usize = if total - off <= 28 {
            total - off
        } else {
            28
        };
        let mut rep: Report<33> = Report::new();
        rep.set(0, QMK_KEYMAP_GET_COMMAND);
        rep.set(1, (off / 256) as u8);
        rep.set(2, (off % 256) as u8);
        rep.set(3, cnt as u8);
        proof {
            assert(rep@ =~= kspec[i as int]);
        }
        reps.push(rep);
        i = i + 1;
    }
    proof {
        assert(reps@.map_values(|rp: Report<33>| rp@) =~= kspec);
    }
    reps
}

/// Applies one keymap response: the echoed big-endian byte offset and count
/// place the big-endian scancodes it carries.
pub fn apply_keymap_response(keymap: &mut Vec<u16>, resp: &[u8]) -> (r: Result<
    (),
    KeyboardError,
>)
    requires
        resp@.len() == 33,
    ensures
        final(keymap)@.len() == old(keymap)@.len(),
        ({
            let off = (resp@[1] as int * 256 + resp@[2] as int) / 2;
            let cnt = resp@[3] as int / 2;
            if off + cnt <= old(keymap)@.len() && 4 + 2 * cnt <= 33 {
                &&& r is Ok
                &&& final(keymap)@ =~= old(keymap)@.subrange(0, off) + Seq::new(
                    cnt as nat,
                    |k: int| (((resp@[4 + 2 * k] as int) * 256 + resp@[5 + 2 * k]) as u16),
                ) + old(keymap)@.skip(off + cnt)
            } else {
                r is Err && final(keymap)@ == old(keymap)@
            }
        }),
{
    let off = ((resp[1] as usize) * 256 + resp[2] as usize) / 2;
    let cnt = (resp[3] / 2) as usize;
    if off > keymap.len() || cnt > keymap.len() - off || cnt > 14 {
        return Err(KeyboardError::Response);
    }
    let mut k: usize = 0;
    while k < cnt
        invariant
            k <= cnt,
            off + cnt <= keymap@.len(),
            4 + 2 * cnt <= 33,
            resp@.len() == 33,
            keymap@.len() == old(keymap)@.len(),
            forall|j: int| 0 <= j < off ==> keymap@[j] == old(keymap)@[j],
            forall|j: int|
                0 <= j < k ==> #[trigger] keymap@[off + j] == (((resp@[4 + 2 * j] as int) * 256
                    + resp@[5 + 2 * j]) as u16),
            forall|j: int| off + cnt <= j < keymap@.len() ==> keymap@[j] == old(keymap)@[j],
        decreases cnt - k,
    {
        let n = keymap.len();
        proof {
            assert(off + k < n);
        }
        let hi = resp[4 + 2 * k] as u16;
        let lo = resp[5 + 2 * k] as u16;
        keymap.set(off + k, hi * 256 + lo);
        k = k + 1;
    }
    proof {
        let mid = Seq::new(
            cnt as nat,
            |j: int| (((resp@[4 + 2 * j] as int) * 256 + resp@[5 + 2 * j]) as u16),
        );
        let rhs = old(keymap)@.subrange(0, off as int) + mid + old(keymap)@.skip(off + cnt);
        assert(keymap@.len() == rhs.len());
        assert forall|j: int| 0 <= j < keymap@.len() implies keymap@[j] == rhs[j] by {
            if off <= j < off + cnt {
                assert(keymap@[off + (j - off)] == (((resp@[4 + 2 * (j - off)] as int) * 256
                    + resp@[5 + 2 * (j - off)]) as u16));
                assert(rhs[j] == mid[j - off]);
            }
        }
        assert(keymap@ =~= rhs);
    }
    Ok(())
}

/// The single setting a GET response carries.
pub fn read_setting_response(resp: &[u8]) -> (r: u8)
    requires
        resp@.len() == 33,
    ensures
        r == resp@[3],
{
    resp[3]
}

/// The hue and saturation a colour GET response carries.
pub fn read_color_response(resp: &[u8]) -> (r: (u8, u8))
    requires
        resp@.len() == 33,
    ensures
        r == (resp@[3], resp@[4]),
{
    (resp[3], resp[4])
}

} // verus!
