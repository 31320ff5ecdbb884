//! The live configuration read by the routing engine: input slots, presets,
//! the active preset index and the global transpose.

use vstd::prelude::*;
use vstd::string::StringExecFns;
use vstd::string::StringSliceAdditionalSpecFns;
use vstd::utf8::encode_utf8;
use vstd::utf8::is_ascii_chars;
use vstd::utf8::is_char_boundary;

use crate::common_settings::default_settings;
use crate::input_settings::InputSettings;
use crate::output_settings::OutputSettings;
use crate::preset::Preset;
use crate::preset::same_mapping;
use crate::utils::push_decimal;
use crate::utils::lemma_encode_concat;
use crate::utils::spec_dec_bytes;

verus! {

/// Length of the digit run ending just before position `e`.
pub open spec fn rev_digit_run(b: Seq<u8>, e: int) -> int
    decreases e,
{
    if e <= 0 || e > b.len() || !(48 <= b[e - 1] <= 57) {
        0
    } else {
        1 + rev_digit_run(b, e - 1)
    }
}

/// The name ends in `(N)` for some run of digits N.
pub open spec fn has_numbered_suffix(b: Seq<u8>) -> bool {
    let d = rev_digit_run(b, b.len() - 1);
    &&& b.len() >= 3
    &&& b[b.len() - 1] == 41
    &&& d >= 1
    &&& b.len() - 2 - d >= 0
    &&& b[b.len() - 2 - d] == 40
}

/// Position of the suffix's opening parenthesis.
pub open spec fn suffix_open_pos(b: Seq<u8>) -> int {
    b.len() - 2 - rev_digit_run(b, b.len() - 1)
}

/// The number written by the digits at positions `lo` to `hi` (exclusive).
pub open spec fn digits_value(b: Seq<u8>, lo: int, hi: int) -> int
    decreases hi - lo,
{
    if hi <= lo {
        0
    } else {
        digits_value(b, lo, hi - 1) * 10 + b[hi - 1] - 48
    }
}

/// The value of the name's numbered suffix.
pub open spec fn suffix_value(b: Seq<u8>) -> int {
    digits_value(b, suffix_open_pos(b) + 1, b.len() - 1)
}

/// What a duplicated preset is called, at the byte level: a trailing `(N)`
/// counts up to `(N+1)`; any other name gets ` (2)` appended.
pub open spec fn spec_next_name_bytes(b: Seq<u8>) -> Seq<u8> {
    if has_numbered_suffix(b) {
        b.take(suffix_open_pos(b)) + seq![40u8] + spec_dec_bytes(suffix_value(b) + 1) + seq![41u8]
    } else {
        b + encode_utf8(" (2)"@)
    }
}

/// A digit string never writes a negative value.
proof fn lemma_digits_value_nonneg(b: Seq<u8>, lo: int, hi: int)
    requires
        forall|k: int| lo <= k < hi ==> 48 <= #[trigger] b[k] <= 57,
    ensures
        digits_value(b, lo, hi) >= 0,
    decreases hi - lo,
{
    if hi > lo {
        lemma_digits_value_nonneg(b, lo, hi - 1);
        assert(digits_value(b, lo, hi - 1) * 10 >= 0) by (nonlinear_arith)
            requires
                digits_value(b, lo, hi - 1) >= 0,
        ;
    }
}

/// Extending a digit string to the right never shrinks its value.
proof fn lemma_digits_value_mono(b: Seq<u8>, lo: int, q: int, hi: int)
    requires
        lo <= q <= hi,
        forall|k: int| lo <= k < hi ==> 48 <= #[trigger] b[k] <= 57,
    ensures
        digits_value(b, lo, q) <= digits_value(b, lo, hi),
    decreases hi - q,
{
    if q < hi {
        lemma_digits_value_mono(b, lo, q, hi - 1);
        lemma_digits_value_nonneg(b, lo, hi - 1);
        assert(digits_value(b, lo, hi - 1) * 10 >= digits_value(b, lo, hi - 1)) by (nonlinear_arith)
            requires
                digits_value(b, lo, hi - 1) >= 0,
        ;
    }
}

/// The name a duplicate of this preset gets, as `spec_next_name_bytes`
/// describes (the cut before a counted-up suffix falls on a character
/// boundary whenever the name is valid UTF-8, since the byte before it is
/// an ASCII parenthesis; this is checked at run time rather than proved,
/// and a failed check falls back to appending).
fn duplicated_name(name: &String) -> (r: String)
    requires
        has_numbered_suffix(encode_utf8(name@)) ==> suffix_value(encode_utf8(name@))
            < 0xffff_ffff,
    ensures
        ({
            let b = encode_utf8(name@);
            if has_numbered_suffix(b) && is_char_boundary(b, suffix_open_pos(b)) {
                encode_utf8(r@) == spec_next_name_bytes(b)
            } else {
                r@ == name@ + " (2)"@
            }
        }),
{
    let s = name.as_str();
    let b = s.as_bytes();
    let n = b.len();
    if n >= 3 && b[n - 1] == 41 {
        let mut p: usize = n - 1;
        while p > 0 && 48 <= b[p - 1] && b[p - 1] <= 57
            invariant
                0 <= p <= n - 1,
                n == b@.len(),
                forall|k: int| p <= k < n - 1 ==> 48 <= #[trigger] b@[k] <= 57,
                rev_digit_run(b@, n - 1) == (n - 1 - p) + rev_digit_run(b@, p as int),
            decreases p,
        {
            p -= 1;
        }
        proof {
            assert(rev_digit_run(b@, p as int) == 0);
            assert(rev_digit_run(b@, n - 1) == n - 1 - p);
        }
        let d = n - 1 - p;
        if d >= 1 && p >= 1 && b[p - 1] == 40 {
            proof {
                assert(has_numbered_suffix(b@));
                assert(suffix_open_pos(b@) == p - 1);
            }
            let mut v: u64 = 0;
            let mut q = p;
            proof {
                assert(suffix_value(b@) == digits_value(b@, p as int, n - 1));
            }
            while q < n - 1
                invariant
                    p <= q <= n - 1,
                    n == b@.len(),
                    forall|k: int| p <= k < n - 1 ==> 48 <= #[trigger] b@[k] <= 57,
                    v == digits_value(b@, p as int, q as int),
                    digits_value(b@, p as int, n - 1) < 0xffff_ffff,
                    v < 0xffff_ffff,
                decreases n - 1 - q,
            {
                v = v * 10 + (b[q] - 48) as u64;
                q += 1;
                proof {
                    lemma_digits_value_mono(b@, p as int, q as int, n - 1);
                }
            }
            let next = v + 1;
            if s.is_char_boundary(p - 1) {
                let (prefix, _) = s.split_at(p - 1);
                let mut out = prefix.to_owned();
                let ghost prefix_view = out@;
                out.append("(");
                push_decimal(&mut out, next);
                out.append(")");
                proof {
                    reveal_strlit("(");
                    reveal_strlit(")");
                    assert(is_ascii_chars("("@));
                    assert(is_ascii_chars(")"@));
                    vstd::utf8::is_ascii_chars_encode_utf8("("@);
                    vstd::utf8::is_ascii_chars_encode_utf8(")"@);
                    assert(encode_utf8("("@) =~= seq![40u8]);
                    assert(encode_utf8(")"@) =~= seq![41u8]);
                    assert(out@ == prefix_view + "("@ + crate::utils::spec_dec_digits(
                        next as int,
                    ) + ")"@);
                    lemma_encode_concat(
                        prefix_view + "("@ + crate::utils::spec_dec_digits(next as int),
                        ")"@,
                    );
                    lemma_encode_concat(
                        prefix_view + "("@,
                        crate::utils::spec_dec_digits(next as int),
                    );
                    lemma_encode_concat(prefix_view, "("@);
                    assert(encode_utf8(prefix_view) == b@.subrange(0, p - 1));
                    assert(encode_utf8(out@) =~= spec_next_name_bytes(b@));
                }
                return out;
            }
        }
    }
    let mut out = name.clone();
    out.append(" (2)");
    out
}

/// A pending "press a control to pick it" request from the interface, and
/// the raw message that answered it.
#[derive(Debug)]
pub struct MidiLearn {
    pub target: Option<usize>,
    pub result: Option<Vec<u8>>,
}

impl Default for MidiLearn {
    fn default() -> (r: Self)
        ensures
            r.target is None,
            r.result is None,
    {
        MidiLearn { target: None, result: None }
    }
}

/// The configuration root. Lives for the whole process; the engine reads it
/// on every message and writes only `current_preset`.
#[derive(Debug)]
pub struct Properties {
    pub inputs: Vec<InputSettings>,
    pub presets: Vec<Preset>,
    /// Index of the active preset in `presets`.
    pub current_preset: usize,
    /// Global transpose in semitones, applied to note keys unless a
    /// connection opts out.
    pub transpose: i8,
    /// Keyboard shortcut assignments of the interface; not read here.
    pub shortcuts: Vec<String>,
}

impl Properties {
    /// Every input and preset carries well-formed settings.
    pub open spec fn wf(&self) -> bool {
        &&& forall|i: int| 0 <= i < self.inputs@.len() ==> (#[trigger] self.inputs@[i]).wf()
        &&& forall|i: int| 0 <= i < self.presets@.len() ==> (#[trigger] self.presets@[i]).wf()
    }

    /// Each preset's stored id is its position in the preset list.
    pub open spec fn ids_consistent(&self) -> bool {
        forall|i: int| 0 <= i < self.presets@.len() ==> (#[trigger] self.presets@[i]).id == i
    }

    /// Remove the preset at `id`, renumber the rest to match their new
    /// positions, and move the active-preset index to the previous entry.
    #[verifier::loop_isolation(false)]
    pub fn remove_preset(&mut self, id: usize)
        requires
            id < old(self).presets@.len(),
        ensures
            final(self).presets@.len() == old(self).presets@.len() - 1,
            final(self).ids_consistent(),
            forall|i: int|
                0 <= i < final(self).presets@.len() ==> #[trigger] final(self).presets@[i] == (Preset {
                    id: i as usize,
                    ..old(self).presets@[if i < id { i } else { i + 1 }]
                }),
            final(self).current_preset == if id > 0 {
                (id - 1) as usize
            } else {
                0usize
            },
            final(self).inputs == old(self).inputs,
            final(self).transpose == old(self).transpose,
            final(self).shortcuts == old(self).shortcuts,
            old(self).wf() ==> final(self).wf(),
    {
        self.presets.remove(id);
        renumber_presets(&mut self.presets);
        self.current_preset = if id > 0 {
            id - 1
        } else {
            0
        };
    }

    /// Duplicate the preset at `id`: the copy goes right after the
    /// original, carries the same mapping, and is named after it (a
    /// trailing `(N)` counts up, anything else gets ` (2)` appended); ids
    /// are renumbered and the copy becomes active. An out-of-range `id`
    /// changes nothing.
    pub fn duplicate_preset(&mut self, id: usize)
        requires
            id < old(self).presets@.len() ==> (has_numbered_suffix(
                encode_utf8(old(self).presets@[id as int].name@),
            ) ==> suffix_value(encode_utf8(old(self).presets@[id as int].name@)) < 0xffff_ffff),
        ensures
            id >= old(self).presets@.len() ==> *final(self) == *old(self),
            id < old(self).presets@.len() ==> {
                &&& final(self).presets@.len() == old(self).presets@.len() + 1
                &&& final(self).ids_consistent()
                &&& forall|k: int|
                    0 <= k < final(self).presets@.len() && k != id + 1
                        ==> #[trigger] final(self).presets@[k] == (Preset {
                        id: k as usize,
                        ..old(self).presets@[if k <= id {
                            k
                        } else {
                            k - 1
                        }]
                    })
                &&& final(self).presets@[id + 1].id == id + 1
                &&& same_mapping(
                    final(self).presets@[id + 1].mapping,
                    old(self).presets@[id as int].mapping,
                )
                &&& ({
                    let b = encode_utf8(old(self).presets@[id as int].name@);
                    if has_numbered_suffix(b) && is_char_boundary(b, suffix_open_pos(b)) {
                        encode_utf8(final(self).presets@[id + 1].name@) == spec_next_name_bytes(b)
                    } else {
                        final(self).presets@[id + 1].name@ == old(self).presets@[id as int].name@
                            + " (2)"@
                    }
                })
                &&& final(self).current_preset == id + 1
                &&& final(self).inputs == old(self).inputs
                &&& final(self).transpose == old(self).transpose
                &&& final(self).shortcuts == old(self).shortcuts
                &&& old(self).wf() ==> final(self).wf()
            },
    {
        if id >= self.presets.len() {
            return ;
        }
        let new_name = duplicated_name(&self.presets[id].name);
        let new_mapping = self.presets[id].mapping.clone();
        let copy = Preset { id: id + 1, name: new_name, mapping: new_mapping };
        proof {
            let src = self.presets@[id as int];
            assert(same_mapping(copy.mapping, src.mapping));
            if self.wf() {
                assert(src.wf());
                assert(copy.wf()) by {
                    lemma_same_mapping_wf(copy.mapping, src.mapping);
                }
            }
        }
        self.presets.insert(id + 1, copy);
        renumber_presets(&mut self.presets);
        self.current_preset = id + 1;
        proof {
            let mid = old(self).presets@.insert(id + 1, copy);
            assert(self.presets@.len() == mid.len());
            assert forall|k: int|
                0 <= k < self.presets@.len() && k != id + 1 implies #[trigger] self.presets@[k]
                == (Preset {
                id: k as usize,
                ..old(self).presets@[if k <= id {
                    k
                } else {
                    k - 1
                }]
            }) by {
                assert(self.presets@[k] == (Preset { id: k as usize, ..mid[k] }));
                if k <= id {
                    assert(mid[k] == old(self).presets@[k]);
                } else {
                    assert(mid[k] == old(self).presets@[k - 1]);
                }
            }
            assert(self.presets@[id + 1] == (Preset { id: (id + 1) as usize, ..mid[id + 1] }));
            assert(mid[id + 1] == copy);
            if old(self).wf() {
                assert forall|i: int| 0 <= i < self.presets@.len() implies (
                #[trigger] self.presets@[i]).wf() by {
                    assert(self.presets@[i] == (Preset { id: i as usize, ..mid[i] }));
                    if i == id + 1 {
                    } else if i <= id {
                        assert(mid[i] == old(self).presets@[i]);
                    } else {
                        assert(mid[i] == old(self).presets@[i - 1]);
                    }
                }
            }
        }
    }
}

/// Mappings that agree entry by entry are well-formed together.
proof fn lemma_same_mapping_wf(a: crate::preset::Mapping, b: crate::preset::Mapping)
    requires
        same_mapping(a, b),
        b.inv(),
        b.all_wf(),
    ensures
        a.inv(),
        a.all_wf(),
{
    assert forall|i: int, j: int|
        0 <= i < j < a.entries_view().len() implies (#[trigger] a.entries_view()[i]).0 != (
    #[trigger] a.entries_view()[j]).0 by {
        assert(a.entries_view()[i].0 == b.entries_view()[i].0);
        assert(a.entries_view()[j].0 == b.entries_view()[j].0);
    }
    assert forall|i: int, j: int|
        0 <= i < a.entries_view().len() && 0 <= j < (#[trigger] a.entries_view()[i]).1@.len() implies (
    #[trigger] a.entries_view()[i].1@[j]).wf() by {
        assert(crate::output_settings::same_output_settings(
            a.entries_view()[i].1@[j],
            b.entries_view()[i].1@[j],
        ));
        assert(b.entries_view()[i].1@[j].wf());
    }
}

/// Rewrite each preset's id to its position in the list, leaving everything
/// else of each preset untouched.
#[verifier::loop_isolation(false)]
pub fn renumber_presets(presets: &mut Vec<Preset>)
    ensures
        final(presets)@.len() == old(presets)@.len(),
        forall|i: int|
            0 <= i < final(presets)@.len() ==> (#[trigger] final(presets)@[i]).id == i,
        forall|i: int|
            0 <= i < final(presets)@.len() ==> #[trigger] final(presets)@[i] == (Preset {
                id: i as usize,
                ..old(presets)@[i]
            }),
{
    let n = presets.len();
    let mut i: usize = 0;
    while i < n
        invariant
            0 <= i <= n,
            presets@.len() == n,
            forall|j: int| 0 <= j < i ==> (#[trigger] presets@[j]).id == j,
            forall|j: int|
                0 <= j < i ==> #[trigger] presets@[j] == (Preset {
                    id: j as usize,
                    ..old(presets)@[j]
                }),
            forall|j: int| i <= j < n ==> #[trigger] presets@[j] == old(presets)@[j],
        decreases n - i,
    {
        let mut p = presets.remove(i);
        p.id = i;
        presets.insert(i, p);
        i += 1;
    }
}

impl Default for Properties {
    /// The startup configuration: one unassigned input slot with everything
    /// at its defaults, one empty preset, no transpose.
    fn default() -> (r: Self)
        ensures
            r.inputs@.len() == 1,
            r.inputs@[0].port_name@ == Seq::<char>::empty(),
            r.inputs@[0].use_program_change == false,
            default_settings(r.inputs@[0].common),
            r.presets@.len() == 1,
            r.presets@[0].id == 0,
            r.presets@[0].name@ == "Preset 1"@,
            r.presets@[0].mapping.entries_view() == Seq::<(usize, Vec<OutputSettings>)>::empty(),
            r.current_preset == 0,
            r.transpose == 0,
            r.shortcuts@.len() == 0,
            r.wf(),
            r.ids_consistent(),
    {
        let mut inputs: Vec<InputSettings> = Vec::new();
        inputs.push(InputSettings::default());
        let mut presets: Vec<Preset> = Vec::new();
        presets.push(Preset::new(0, String::from_str("Preset 1")));
        Properties { inputs, presets, current_preset: 0, transpose: 0, shortcuts: Vec::new() }
    }
}

} // verus!
