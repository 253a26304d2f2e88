use vstd::prelude::*;

verus! {

// A boot-protocol HID keyboard report: one modifier bitmask byte, one
// reserved byte, then up to six simultaneous non-modifier keycodes. Keycodes
// are HID usage ids; the eight modifiers occupy 0xE0..=0xE7 and are reported
// as bits, not key slots.

/// Whether a keycode is one of the eight HID modifiers.
pub open spec fn is_modifier(kc: u8) -> bool {
    0xE0 <= kc && kc <= 0xE7
}

/// The modifier's bit in the report's first byte, zero for ordinary keys.
pub open spec fn mod_bit(kc: u8) -> u8 {
    if is_modifier(kc) {
        1u8 << (kc - 0xE0)
    } else {
        0u8
    }
}

/// The modifier bitmask accumulated over a keycode sequence.
pub open spec fn mod_mask(kcs: Seq<u8>) -> u8
    decreases kcs.len(),
{
    if kcs.len() == 0 {
        0u8
    } else {
        mod_mask(kcs.drop_last()) | mod_bit(kcs.last())
    }
}

/// The report's key slots for a keycode sequence: non-modifier keycodes in
/// first-seen order, duplicates dropped, deterministically truncated to the
/// six slots the boot protocol offers.
pub open spec fn report_keys(kcs: Seq<u8>) -> Seq<u8>
    decreases kcs.len(),
{
    if kcs.len() == 0 {
        Seq::empty()
    } else {
        let prev = report_keys(kcs.drop_last());
        let kc = kcs.last();
        if !is_modifier(kc) && !prev.contains(kc) && prev.len() < 6 {
            prev.push(kc)
        } else {
            prev
        }
    }
}

/// The key slots never exceed the six the wire format has room for.
pub proof fn lemma_report_keys_bounded(kcs: Seq<u8>)
    ensures
        report_keys(kcs).len() <= 6,
    decreases kcs.len(),
{
    if kcs.len() > 0 {
        lemma_report_keys_bounded(kcs.drop_last());
    }
}

/// The eight wire bytes for a modifier bitmask and key-slot sequence:
/// bitmask, reserved zero, six key slots padded with zeroes.
pub open spec fn report_bytes(modifiers: u8, keys: Seq<u8>) -> Seq<u8> {
    Seq::new(
        8,
        |i: int|
            if i == 0 {
                modifiers
            } else if i == 1 {
                0u8
            } else if i - 2 < keys.len() {
                keys[i - 2]
            } else {
                0u8
            },
    )
}

/// The wire bytes produced for a keycode sequence.
pub open spec fn report_bytes_for(kcs: Seq<u8>) -> Seq<u8> {
    report_bytes(mod_mask(kcs), report_keys(kcs))
}

/// The key slots hold no duplicates: a keycode down at several positions is
/// reported once.
pub proof fn lemma_report_keys_no_dup(kcs: Seq<u8>)
    ensures
        forall|i: int, j: int|
            0 <= i < j < report_keys(kcs).len() ==> report_keys(kcs)[i] != report_keys(kcs)[j],
    decreases kcs.len(),
{
    if kcs.len() > 0 {
        lemma_report_keys_no_dup(kcs.drop_last());
        let prev = report_keys(kcs.drop_last());
        let kc = kcs.last();
        if !is_modifier(kc) && !prev.contains(kc) && prev.len() < 6 {
            assert forall|i: int, j: int|
                0 <= i < j < prev.push(kc).len() implies prev.push(kc)[i] != prev.push(kc)[j] by {
                if j == prev.len() {
                    assert(prev.push(kc)[i] == prev[i]);
                    if prev[i] == kc {
                        assert(prev.contains(kc));
                    }
                }
            }
        }
    }
}

/// Every key slot comes from the keycode set, and the modifiers never take
/// a slot.
pub proof fn lemma_report_keys_from_input(kcs: Seq<u8>)
    ensures
        forall|i: int|
            0 <= i < report_keys(kcs).len() ==> kcs.contains(#[trigger] report_keys(kcs)[i])
                && !is_modifier(report_keys(kcs)[i]),
    decreases kcs.len(),
{
    if kcs.len() > 0 {
        lemma_report_keys_from_input(kcs.drop_last());
        let prev = report_keys(kcs.drop_last());
        let kc = kcs.last();
        assert forall|i: int|
            0 <= i < report_keys(kcs).len() implies kcs.contains(#[trigger] report_keys(kcs)[i])
            && !is_modifier(report_keys(kcs)[i]) by {
            if i < prev.len() {
                assert(kcs.drop_last().contains(prev[i]));
                let w = choose|w: int| 0 <= w < kcs.drop_last().len() && kcs.drop_last()[w] == prev[i];
                assert(kcs[w] == prev[i]);
            } else {
                assert(report_keys(kcs)[i] == kc);
                assert(kcs[kcs.len() - 1] == kc);
            }
        }
    }
}

/// A fixed-size HID keyboard report, assembled from the layout engine's
/// current keycode set once per scan tick.
pub struct HidReport {
    pub modifiers: u8,
    pub keys: Vec<u8>,
}

impl HidReport {
    pub open spec fn wf(self) -> bool {
        self.keys@.len() <= 6
    }

    /// Packages a keycode sequence into a report: modifiers become bits of
    /// the bitmask, other keycodes fill the six key slots in first-seen
    /// order, and the overflow is truncated, never reordered.
    pub fn from_keycodes(kcs: &Vec<u8>) -> (rep: HidReport)
        ensures
            rep.wf(),
            rep.modifiers == mod_mask(kcs@),
            rep.keys@ == report_keys(kcs@),
    {
        let mut modifiers: u8 = 0;
        let mut keys: Vec<u8> = Vec::new();
        let n = kcs.len();
        let mut i: usize = 0;
        while i < n
            invariant
                n == kcs@.len(),
                i <= n,
                modifiers == mod_mask(kcs@.take(i as int)),
                keys@ == report_keys(kcs@.take(i as int)),
                keys@.len() <= 6,
            decreases n - i,
        {
            proof {
                assert(kcs@.take(i + 1).drop_last() =~= kcs@.take(i as int));
                assert(kcs@.take(i + 1).last() == kcs@[i as int]);
            }
            let kc = kcs[i];
            if 0xE0 <= kc && kc <= 0xE7 {
                modifiers = modifiers | (1u8 << (kc - 0xE0));
            } else {
                proof {
                    assert(mod_bit(kc) == 0u8);
                    assert(modifiers | 0u8 == modifiers) by (bit_vector);
                }
                if keys.len() < 6 && !contains_u8(&keys, kc) {
                    keys.push(kc);
                }
            }
            i += 1;
        }
        proof {
            assert(kcs@.take(n as int) =~= kcs@);
        }
        HidReport { modifiers, keys }
    }

    /// The eight wire bytes of the report: bitmask, reserved zero, six key
    /// slots padded with zeroes.
    pub fn as_bytes(&self) -> (b: Vec<u8>)
        requires
            self.wf(),
        ensures
            b@.len() == 8,
            b@[0] == self.modifiers,
            b@[1] == 0u8,
            forall|i: int| 0 <= i < 6 ==> b@[2 + i] == (if i < self.keys@.len() {
                self.keys@[i]
            } else {
                0u8
            }),
            b@ == report_bytes(self.modifiers, self.keys@),
    {
        let mut b: Vec<u8> = Vec::new();
        b.push(self.modifiers);
        b.push(0);
        b.push(if self.keys.len() > 0 { self.keys[0] } else { 0 });
        b.push(if self.keys.len() > 1 { self.keys[1] } else { 0 });
        b.push(if self.keys.len() > 2 { self.keys[2] } else { 0 });
        b.push(if self.keys.len() > 3 { self.keys[3] } else { 0 });
        b.push(if self.keys.len() > 4 { self.keys[4] } else { 0 });
        b.push(if self.keys.len() > 5 { self.keys[5] } else { 0 });
        proof {
            assert(b@ =~= report_bytes(self.modifiers, self.keys@));
        }
        b
    }
}

fn contains_u8(v: &Vec<u8>, x: u8) -> (r: bool)
    ensures
        r == v@.contains(x),
{
    let n = v.len();
    let mut i: usize = 0;
    while i < n
        invariant
            n == v@.len(),
            i <= n,
            forall|j: int| 0 <= j < i ==> v@[j] != x,
        decreases n - i,
    {
        if v[i] == x {
            assert(v@[i as int] == x);
            return true;
        }
        i += 1;
    }
    assert(forall|j: int| 0 <= j < v@.len() ==> v@[j] != x);
    false
}

/// The wire bytes of the empty report: no modifiers, no keys down.
pub open spec fn idle_report_bytes() -> Seq<u8> {
    Seq::new(8, |i: int| 0u8)
}

/// Remembers the last report handed to the USB transport and asks for a new
/// write only when the report actually changed, so an unchanged keycode set
/// never re-triggers a USB write.
pub struct ReportEmitter {
    pub last: Vec<u8>,
}

impl ReportEmitter {
    /// Starts from the idle report: the first non-empty report is always
    /// considered a change.
    pub fn new() -> (e: ReportEmitter)
        ensures
            e.last@ == idle_report_bytes(),
    {
        let mut last: Vec<u8> = Vec::new();
        let mut i: usize = 0;
        while i < 8
            invariant
                i <= 8,
                last@.len() == i,
                forall|j: int| 0 <= j < i ==> last@[j] == 0u8,
            decreases 8 - i,
        {
            last.push(0);
            i += 1;
        }
        proof {
            assert(last@ =~= idle_report_bytes());
        }
        ReportEmitter { last }
    }

    /// Records the report for this tick and says whether it differs from the
    /// previous one; only then must the caller write it to the transport.
    pub fn set_report(&mut self, bytes: &Vec<u8>) -> (changed: bool)
        ensures
            changed == (bytes@ != old(self).last@),
            final(self).last@ == bytes@,
    {
        let equal = bytes_equal(bytes, &self.last);
        if !equal {
            self.last = copy_bytes(bytes);
        }
        !equal
    }

    /// The transport refused this tick's write (the bounded in-tick retries
    /// never succeeded). Forgets the recorded report: it becomes empty, and
    /// no real eight-byte report equals it, so the next tick's report is
    /// always seen as a change and the stale report is retried.
    pub fn write_failed(&mut self)
        ensures
            final(self).last@.len() == 0,
    {
        self.last = Vec::new();
    }
}

/// The in-tick retry policy for one USB write attempt: retry in a tight
/// loop only while the transport accepted zero bytes (its outgoing buffer
/// momentarily busy). A partial or full write, or a transport error, ends
/// the loop; a persistently refused report is `write_failed` and retried
/// next tick instead.
pub fn should_retry_write(accepted_ok: bool, bytes_accepted: usize) -> (r: bool)
    ensures
        r == (accepted_ok && bytes_accepted == 0),
{
    accepted_ok && bytes_accepted == 0
}

fn bytes_equal(a: &Vec<u8>, b: &Vec<u8>) -> (r: bool)
    ensures
        r == (a@ == b@),
{
    if a.len() != b.len() {
        return false;
    }
    let n = a.len();
    let mut i: usize = 0;
    while i < n
        invariant
            n == a@.len(),
            a@.len() == b@.len(),
            i <= n,
            forall|j: int| 0 <= j < i ==> a@[j] == b@[j],
        decreases n - i,
    {
        if a[i] != b[i] {
            return false;
        }
        i += 1;
    }
    proof {
        assert(a@ =~= b@);
    }
    true
}

fn copy_bytes(a: &Vec<u8>) -> (r: Vec<u8>)
    ensures
        r@ == a@,
{
    let mut r: Vec<u8> = Vec::new();
    let n = a.len();
    let mut i: usize = 0;
    while i < n
        invariant
            n == a@.len(),
            i <= n,
            r@.len() == i,
            forall|j: int| 0 <= j < i ==> r@[j] == a@[j],
        decreases n - i,
    {
        r.push(a[i]);
        i += 1;
    }
    proof {
        assert(r@ =~= a@);
    }
    r
}

} // verus!
