//! Port identities: the opaque system name used to open a connection, and
//! the display name shown to the user. Display names are derived by
//! stripping the port-naming convention of the MIDI bridge (a system name
//! such as `Midi-Bridge: ... (playback_3) Some Synth` displays as
//! `Some Synth`); any other name displays as itself.

use vstd::prelude::*;
use vstd::string::StringSliceAdditionalSpecFns;

verus! {

/// One port as seen by the engine: `readable` is the display name mappings
/// refer to, `internal` the system name used to open the connection. Two
/// ports are the same routing target exactly when `readable` matches.
#[derive(Debug)]
pub struct MidiPort {
    pub readable: String,
    pub internal: String,
}

/// Opening a connection failed: the named port is no longer enumerable or
/// the platform refused it. The affected target is skipped for the current
/// message only.
#[derive(Debug, PartialEq, Eq, Structural)]
pub struct ConnectError {}

/// The two names agree pairwise in content.
pub open spec fn same_port(a: MidiPort, b: MidiPort) -> bool {
    a.readable@ == b.readable@ && a.internal@ == b.internal@
}

impl MidiPort {
    /// A port whose display name was derived from the system name.
    pub fn new(readable: String, internal: String) -> (r: Self)
        ensures
            r.readable == readable,
            r.internal == internal,
    {
        MidiPort { readable, internal }
    }

    /// A port displayed under its system name.
    pub fn new_simple(internal: String) -> (r: Self)
        ensures
            r.readable@ == internal@,
            r.internal == internal,
    {
        MidiPort { readable: internal.clone(), internal }
    }
}

impl Clone for MidiPort {
    /// A copy agreeing with the original in both names.
    fn clone(&self) -> (r: Self)
        ensures
            same_port(r, *self),
    {
        MidiPort { readable: self.readable.clone(), internal: self.internal.clone() }
    }
}

/// The byte string `Midi-Bridge:` — the lead-in of the bridge's port names.
pub open spec fn bridge_lead() -> Seq<u8> {
    seq![77u8, 105, 100, 105, 45, 66, 114, 105, 100, 103, 101, 58]
}

/// The byte string `playback_`.
pub open spec fn word_playback() -> Seq<u8> {
    seq![112u8, 108, 97, 121, 98, 97, 99, 107, 95]
}

/// The byte string `capture_`.
pub open spec fn word_capture() -> Seq<u8> {
    seq![99u8, 97, 112, 116, 117, 114, 101, 95]
}

pub open spec fn is_digit_byte(c: u8) -> bool {
    48 <= c <= 57
}

/// `p` occurs in `b` starting at `at`.
pub open spec fn bytes_at(b: Seq<u8>, p: Seq<u8>, at: int) -> bool {
    0 <= at && at + p.len() <= b.len() && b.subrange(at, at + p.len()) == p
}

/// Length of the digit run starting at `s`.
pub open spec fn digit_run_len(b: Seq<u8>, s: int) -> int
    decreases b.len() - s,
{
    if s < 0 || s >= b.len() || !is_digit_byte(b[s]) {
        0
    } else {
        1 + digit_run_len(b, s + 1)
    }
}

/// The pattern matched at `i` with kind word `w`: `(`, the word, at least
/// one digit, `) `, and a non-empty remainder free of newlines (which ends
/// the name, so the remainder is the display name).
pub open spec fn match_with(b: Seq<u8>, i: int, w: Seq<u8>) -> bool {
    let s = i + 1 + w.len();
    let d = digit_run_len(b, s);
    &&& 0 <= i < b.len()
    &&& b[i] == 40
    &&& bytes_at(b, w, i + 1)
    &&& d >= 1
    &&& s + d + 1 < b.len()
    &&& b[s + d] == 41
    &&& b[s + d + 1] == 32
    &&& s + d + 2 < b.len()
    &&& forall|k: int| s + d + 2 <= k < b.len() ==> b[k] != 10
}

/// Where the display name would start for a match at `i` with word `w`.
pub open spec fn suffix_start_with(b: Seq<u8>, i: int, w: Seq<u8>) -> int {
    i + 1 + w.len() + digit_run_len(b, i + 1 + w.len()) + 2
}

pub open spec fn match_at(b: Seq<u8>, i: int) -> bool {
    match_with(b, i, word_playback()) || match_with(b, i, word_capture())
}

pub open spec fn suffix_start_at(b: Seq<u8>, i: int) -> int {
    if match_with(b, i, word_playback()) {
        suffix_start_with(b, i, word_playback())
    } else {
        suffix_start_with(b, i, word_capture())
    }
}

/// The leftmost match position at or after `i`, if any.
pub open spec fn find_match_from(b: Seq<u8>, i: int) -> Option<int>
    decreases b.len() - i,
{
    if i < 0 || i >= b.len() {
        None
    } else if match_at(b, i) {
        Some(i)
    } else {
        find_match_from(b, i + 1)
    }
}

/// Where the display name starts inside a bridge port name, if the name is
/// one: the name leads with `Midi-Bridge:` and the pattern matches
/// somewhere, leftmost occurrence first.
pub open spec fn spec_display_start(b: Seq<u8>) -> Option<int> {
    if bytes_at(b, bridge_lead(), 0) {
        match find_match_from(b, 0) {
            Some(i) => Some(suffix_start_at(b, i)),
            None => None,
        }
    } else {
        None
    }
}

/// The display name of `port` is correctly derived from the raw system
/// name `name`: the remainder singled out by the bridge convention when the
/// name follows it (and the cut falls on a character boundary, which it
/// always does in valid UTF-8 since the byte before it is an ASCII space),
/// the whole name otherwise.
pub open spec fn display_derived(name: Seq<char>, port: MidiPort) -> bool {
    let b = vstd::utf8::encode_utf8(name);
    &&& port.internal@ == name
    &&& match spec_display_start(b) {
        Some(j) => {
            &&& vstd::utf8::is_char_boundary(b, j) ==> vstd::utf8::encode_utf8(port.readable@)
                == b.skip(j)
            &&& !vstd::utf8::is_char_boundary(b, j) ==> port.readable@ == name
        },
        None => port.readable@ == name,
    }
}

/// `find_match_from` finds exactly the leftmost match.
proof fn lemma_find_match_char(b: Seq<u8>, i: int)
    requires
        0 <= i <= b.len(),
    ensures
        match find_match_from(b, i) {
            Some(x) => i <= x < b.len() && match_at(b, x) && (forall|j: int|
                i <= j < x ==> !match_at(b, j)),
            None => forall|j: int| i <= j < b.len() ==> !match_at(b, j),
        },
    decreases b.len() - i,
{
    if i < b.len() && !match_at(b, i) {
        lemma_find_match_char(b, i + 1);
    }
}

/// Check the pattern at position `i`; hand back the display-name start on a
/// match.
#[verifier::loop_isolation(false)]
fn check_match_at(b: &[u8], i: usize) -> (r: Option<usize>)
    requires
        i < b@.len(),
    ensures
        match r {
            Some(j) => match_at(b@, i as int) && j == suffix_start_at(b@, i as int),
            None => !match_at(b@, i as int),
        },
{
    if b[i] != 40 {
        return None;
    }
    let wlen: usize = if word_at_playback(b, i + 1) {
        9
    } else if word_at_capture(b, i + 1) {
        8
    } else {
        proof {
            assert(!bytes_at(b@, word_playback(), i + 1));
            assert(!bytes_at(b@, word_capture(), i + 1));
        }
        return None;
    };
    let ghost w: Seq<u8> = if wlen == 9 {
        word_playback()
    } else {
        word_capture()
    };
    proof {
        if wlen == 9 {
            assert(!bytes_at(b@, word_capture(), i + 1)) by {
                if bytes_at(b@, word_capture(), i + 1) {
                    assert(b@.subrange(i + 1, i + 1 + 9)[0] == b@[i + 1]);
                    assert(b@.subrange(i + 1, i + 1 + 8)[0] == b@[i + 1]);
                    assert(word_playback()[0] != word_capture()[0]);
                }
            }
        }
    }
    let s = i + 1 + wlen;
    let mut d: usize = 0;
    while s + d < b.len() && 48 <= b[s + d] && b[s + d] <= 57
        invariant
            0 <= d,
            s + d <= b@.len(),
            digit_run_len(b@, s as int) == d + digit_run_len(b@, s + d as int),
        decreases b@.len() - s - d,
    {
        d += 1;
    }
    proof {
        assert(digit_run_len(b@, s + d as int) == 0);
        assert(digit_run_len(b@, s as int) == d as int);
    }
    if d == 0 {
        return None;
    }
    if b.len() - (s + d) < 2 {
        return None;
    }
    if b[s + d] != 41 || b[s + d + 1] != 32 {
        return None;
    }
    if b.len() - (s + d) < 3 {
        return None;
    }
    let j = s + d + 2;
    let mut k = j;
    while k < b.len()
        invariant
            j <= k <= b@.len(),
            forall|l: int| j <= l < k ==> b@[l] != 10,
        decreases b@.len() - k,
    {
        if b[k] == 10 {
            return None;
        }
        k += 1;
    }
    proof {
        assert(match_with(b@, i as int, w));
        if wlen == 9 {
            assert(match_with(b@, i as int, word_playback()));
        } else {
            assert(!match_with(b@, i as int, word_playback()));
        }
    }
    Some(j)
}

#[verifier::loop_isolation(false)]
fn word_at_playback(b: &[u8], at: usize) -> (r: bool)
    ensures
        r == bytes_at(b@, word_playback(), at as int),
{
    if b.len() < 9 || at > b.len() - 9 {
        proof {
            assert(!bytes_at(b@, word_playback(), at as int));
        }
        return false;
    }
    let r = b[at] == 112 && b[at + 1] == 108 && b[at + 2] == 97 && b[at + 3] == 121 && b[at + 4]
        == 98 && b[at + 5] == 97 && b[at + 6] == 99 && b[at + 7] == 107 && b[at + 8] == 95;
    proof {
        let sub = b@.subrange(at as int, at + 9);
        assert(forall|x: int| 0 <= x < 9 ==> #[trigger] sub[x] == b@[at + x]);
        if r {
            assert(sub =~= word_playback());
        } else {
            if sub == word_playback() {
                assert(b@[at as int] == 112 && b@[at + 1] == 108 && b@[at + 2] == 97 && b@[at + 3]
                    == 121 && b@[at + 4] == 98 && b@[at + 5] == 97 && b@[at + 6] == 99 && b@[at + 7]
                    == 107 && b@[at + 8] == 95);
            }
        }
    }
    r
}

#[verifier::loop_isolation(false)]
fn word_at_capture(b: &[u8], at: usize) -> (r: bool)
    ensures
        r == bytes_at(b@, word_capture(), at as int),
{
    if b.len() < 8 || at > b.len() - 8 {
        proof {
            assert(!bytes_at(b@, word_capture(), at as int));
        }
        return false;
    }
    let r = b[at] == 99 && b[at + 1] == 97 && b[at + 2] == 112 && b[at + 3] == 116 && b[at + 4]
        == 117 && b[at + 5] == 114 && b[at + 6] == 101 && b[at + 7] == 95;
    proof {
        let sub = b@.subrange(at as int, at + 8);
        assert(forall|x: int| 0 <= x < 8 ==> #[trigger] sub[x] == b@[at + x]);
        if r {
            assert(sub =~= word_capture());
        } else {
            if sub == word_capture() {
                assert(b@[at as int] == 99 && b@[at + 1] == 97 && b@[at + 2] == 112 && b@[at + 3]
                    == 116 && b@[at + 4] == 117 && b@[at + 5] == 114 && b@[at + 6] == 101 && b@[at
                    + 7] == 95);
            }
        }
    }
    r
}

#[verifier::loop_isolation(false)]
fn has_bridge_lead(b: &[u8]) -> (r: bool)
    ensures
        r == bytes_at(b@, bridge_lead(), 0),
{
    if b.len() < 12 {
        proof {
            assert(!bytes_at(b@, bridge_lead(), 0));
        }
        return false;
    }
    let r = b[0] == 77 && b[1] == 105 && b[2] == 100 && b[3] == 105 && b[4] == 45 && b[5] == 66
        && b[6] == 114 && b[7] == 105 && b[8] == 100 && b[9] == 103 && b[10] == 101 && b[11] == 58;
    proof {
        let sub = b@.subrange(0, 12);
        assert(forall|x: int| 0 <= x < 12 ==> #[trigger] sub[x] == b@[x]);
        if r {
            assert(sub =~= bridge_lead());
        } else {
            if sub == bridge_lead() {
                assert(b@[0] == 77 && b@[1] == 105 && b@[2] == 100 && b@[3] == 105 && b@[4] == 45
                    && b@[5] == 66 && b@[6] == 114 && b@[7] == 105 && b@[8] == 100 && b@[9] == 103
                    && b@[10] == 101 && b@[11] == 58);
            }
        }
    }
    r
}

/// Derive the display name of a raw system port name, as `display_derived`
/// describes (the character-boundary side condition is checked at run time
/// rather than proved; a failed check keeps the whole name).
#[verifier::loop_isolation(false)]
pub fn parse_port(port_name: String) -> (r: MidiPort)
    ensures
        r.internal == port_name,
        display_derived(port_name@, r),
{
    let s = port_name.as_str();
    let b = s.as_bytes();
    if has_bridge_lead(b) {
        let n = b.len();
        let mut i: usize = 0;
        while i < n
            invariant
                0 <= i <= n,
                n == b@.len(),
                forall|j: int| 0 <= j < i ==> !match_at(b@, j),
            decreases n - i,
        {
            match check_match_at(b, i) {
                Some(j) => {
                    proof {
                        lemma_find_match_char(b@, 0);
                        match find_match_from(b@, 0) {
                            Some(x) => {
                                if x < i {
                                    assert(!match_at(b@, x));
                                } else if x > i {
                                    assert(!match_at(b@, i as int));
                                }
                            },
                            None => {
                                assert(!match_at(b@, i as int));
                            },
                        }
                    }
                    if s.is_char_boundary(j) {
                        let (_, suffix) = s.split_at(j);
                        return MidiPort::new(suffix.to_owned(), port_name);
                    } else {
                        return MidiPort::new_simple(port_name);
                    }
                },
                None => {},
            }
            i += 1;
        }
        proof {
            lemma_find_match_char(b@, 0);
            match find_match_from(b@, 0) {
                Some(x) => {
                    assert(!match_at(b@, x));
                },
                None => {},
            }
        }
        MidiPort::new_simple(port_name)
    } else {
        MidiPort::new_simple(port_name)
    }
}

/// Derive the display names of a whole port list: one port per raw name,
/// in order, each derived as `display_derived` describes.
#[verifier::loop_isolation(false)]
pub fn parse_ports(names: Vec<String>) -> (r: Vec<MidiPort>)
    ensures
        r@.len() == names@.len(),
        forall|i: int| 0 <= i < r@.len() ==> (#[trigger] r@[i]).internal == names@[i],
        forall|i: int| 0 <= i < r@.len() ==> display_derived(names@[i]@, #[trigger] r@[i]),
{
    let ghost names0 = names@;
    let mut rest = names;
    let mut out: Vec<MidiPort> = Vec::new();
    let n = rest.len();
    let mut i: usize = 0;
    while i < n
        invariant
            0 <= i <= n,
            n == names0.len(),
            rest@ =~= names0.skip(i as int),
            out@.len() == i,
            forall|j: int| 0 <= j < i ==> (#[trigger] out@[j]).internal == names0[j],
            forall|j: int| 0 <= j < i ==> display_derived(names0[j]@, #[trigger] out@[j]),
        decreases n - i,
    {
        let name = rest.remove(0);
        proof {
            assert(name == names0[i as int]);
            assert(rest@ =~= names0.skip(i + 1));
        }
        out.push(parse_port(name));
        i += 1;
    }
    out
}

/// The first available port displayed under the given name, if any: the
/// engine resolves mapping targets to system ports through the display
/// name.
#[verifier::loop_isolation(false)]
pub fn find_port<'a>(available: &'a Vec<MidiPort>, name: &String) -> (r: Option<&'a MidiPort>)
    ensures
        match r {
            Some(p) => exists|i: int|
                0 <= i < available@.len() && available@[i] == *p && p.readable@ == name@ && (
                forall|j: int| 0 <= j < i ==> (#[trigger] available@[j]).readable@ != name@),
            None => forall|j: int| 0 <= j < available@.len() ==> (#[trigger] available@[j]).readable@
                != name@,
        },
{
    let n = available.len();
    let mut i: usize = 0;
    while i < n
        invariant
            0 <= i <= n,
            n == available@.len(),
            forall|j: int| 0 <= j < i ==> (#[trigger] available@[j]).readable@ != name@,
        decreases n - i,
    {
        if available[i].readable == *name {
            return Some(&available[i]);
        }
        i += 1;
    }
    None
}

/// Whether a running listener keeps its connection: its port must still be
/// enumerated (same display and system name) and some input slot must still
/// select its display name.
#[verifier::loop_isolation(false)]
pub fn retain_listener(
    port: &MidiPort,
    available: &Vec<MidiPort>,
    inputs: &Vec<crate::input_settings::InputSettings>,
) -> (r: bool)
    ensures
        r == ((exists|i: int|
            0 <= i < available@.len() && same_port(#[trigger] available@[i], *port)) && (exists|
            j: int,
        |
            0 <= j < inputs@.len() && (#[trigger] inputs@[j]).port_name@ == port.readable@)),
{
    let mut found_port = false;
    let n = available.len();
    let mut i: usize = 0;
    while i < n
        invariant
            0 <= i <= n,
            n == available@.len(),
            found_port == exists|k: int| 0 <= k < i && same_port(#[trigger] available@[k], *port),
        decreases n - i,
    {
        if available[i].readable == port.readable && available[i].internal == port.internal {
            proof {
                assert(same_port(available@[i as int], *port));
            }
            found_port = true;
        }
        i += 1;
    }
    if !found_port {
        return false;
    }
    let m = inputs.len();
    let mut j: usize = 0;
    while j < m
        invariant
            0 <= j <= m,
            m == inputs@.len(),
            forall|k: int| 0 <= k < j ==> (#[trigger] inputs@[k]).port_name@ != port.readable@,
        decreases m - j,
    {
        if inputs[j].port_name == port.readable {
            return true;
        }
        j += 1;
    }
    false
}

} // verus!
