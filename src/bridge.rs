//! The hand-off between graph evaluation and an audio device: single-producer,
//! single-consumer ring buffers that never block, with silence standing in
//! for samples that are missing.
use vstd::prelude::*;

use rtrb::{Consumer, Producer, RingBuffer};

verus! {

#[verifier::external_type_specification]
#[verifier::external_body]
#[verifier::reject_recursive_types(T)]
pub struct ExProducer<T>(Producer<T>);

#[verifier::external_type_specification]
#[verifier::external_body]
#[verifier::reject_recursive_types(T)]
pub struct ExConsumer<T>(Consumer<T>);

/// The sending end of a ring buffer, with the values it has stored so far.
#[verifier::reject_recursive_types(T)]
pub struct Sender<T> {
    producer: Producer<T>,
    sent: Ghost<Seq<T>>,
    slots: Ghost<nat>,
}

/// The receiving end of a ring buffer, with the values it has taken so far.
#[verifier::reject_recursive_types(T)]
pub struct Receiver<T> {
    consumer: Consumer<T>,
    taken: Ghost<Seq<T>>,
}

impl<T> Sender<T> {
    /// Every value that this end has stored, oldest first.
    pub closed spec fn log(&self) -> Seq<T> {
        self.sent@
    }

    /// How many values the buffer holds at most.
    pub closed spec fn capacity(&self) -> nat {
        self.slots@
    }
}

impl<T> Receiver<T> {
    /// Every value that this end has taken, oldest first.
    pub closed spec fn log(&self) -> Seq<T> {
        self.taken@
    }
}

/// Relies on rtrb::RingBuffer::new: a new empty ring buffer of `capacity`
/// slots, split into its two ends. It allocates `capacity` slots at once.
#[verifier::external_body]
fn ring<T>(capacity: usize) -> (Producer<T>, Consumer<T>)
    requires
        capacity <= isize::MAX,
        capacity * vstd::layout::size_of::<T>() <= isize::MAX,
{
    RingBuffer::new(capacity)
}

/// Relies on rtrb::Producer::push: appends `value` behind the stored values
/// and says so, or, without blocking, refuses it when the buffer holds
/// `capacity` values; the buffer never holds more than this end stored.
#[verifier::external_body]
fn try_push<T>(tx: &mut Sender<T>, value: T) -> (ok: bool)
    ensures
        final(tx).capacity() == old(tx).capacity(),
        ok ==> final(tx).log() == old(tx).log().push(value),
        !ok ==> final(tx).log() == old(tx).log() && old(tx).log().len() >= old(tx).capacity(),
{
    tx.producer.push(value).is_ok()
}

/// Relies on rtrb::Consumer::pop: takes the oldest stored value, or nothing
/// when the buffer is empty, without blocking.
#[verifier::external_body]
fn try_pop<T>(rx: &mut Receiver<T>) -> (r: Option<T>)
    ensures
        match r {
            Some(x) => final(rx).log() == old(rx).log().push(x),
            None => final(rx).log() == old(rx).log(),
        },
{
    rx.consumer.pop().ok()
}

/// The values taken by a run of attempts, in order.
pub open spec fn somes<T>(popped: Seq<Option<T>>) -> Seq<T>
    decreases popped.len(),
{
    if popped.len() == 0 {
        Seq::empty()
    } else {
        match popped.last() {
            Some(x) => somes(popped.drop_last()).push(x),
            None => somes(popped.drop_last()),
        }
    }
}

/// The samples whose offer was accepted, in order.
pub open spec fn kept<T>(samples: Seq<T>, accepted: Seq<bool>) -> Seq<T>
    decreases samples.len(),
{
    if samples.len() == 0 || accepted.len() == 0 {
        Seq::empty()
    } else if accepted.last() {
        kept(samples.drop_last(), accepted.drop_last()).push(samples.last())
    } else {
        kept(samples.drop_last(), accepted.drop_last())
    }
}

/// A new empty ring buffer of `capacity` slots, as its two ends.
pub fn channel<T>(capacity: usize) -> (r: (Sender<T>, Receiver<T>))
    requires
        capacity <= isize::MAX,
        capacity * vstd::layout::size_of::<T>() <= isize::MAX,
    ensures
        r.0.log() == Seq::<T>::empty(),
        r.0.capacity() == capacity,
        r.1.log() == Seq::<T>::empty(),
{
    let (producer, consumer) = ring(capacity);
    (
        Sender { producer, sent: Ghost(Seq::empty()), slots: Ghost(capacity as nat) },
        Receiver { consumer, taken: Ghost(Seq::empty()) },
    )
}

/// The sample that stands for one attempt to take a value: the value taken,
/// or silence.
pub open spec fn fallback<T>(popped: Option<T>, silence: T) -> T {
    match popped {
        Some(s) => s,
        None => silence,
    }
}

/// How many attempts found the buffer empty.
pub open spec fn misses<T>(popped: Seq<Option<T>>) -> nat
    decreases popped.len(),
{
    if popped.len() == 0 {
        0
    } else {
        misses(popped.drop_last()) + if popped.last() is None { 1nat } else { 0nat }
    }
}

/// How many values were refused.
pub open spec fn refusals(accepted: Seq<bool>) -> nat
    decreases accepted.len(),
{
    if accepted.len() == 0 {
        0
    } else {
        refusals(accepted.drop_last()) + if accepted.last() { 0nat } else { 1nat }
    }
}

/// The samples that a run of attempts to take values yields.
pub open spec fn filled<T>(popped: Seq<Option<T>>, silence: T) -> Seq<T> {
    popped.map_values(|p: Option<T>| fallback(p, silence))
}

/// The value taken, or `silence` where there was none.
pub fn sample_or_silence<T: Copy>(popped: Option<T>, silence: T) -> (r: T)
    ensures
        r == fallback(popped, silence),
{
    match popped {
        Some(s) => s,
        None => silence,
    }
}

/// Fills `out` with values taken from `rx`, oldest first, putting `silence`
/// wherever the buffer was empty, and returns how many samples were
/// missing. Never blocks.
pub fn drain_into<T: Copy>(rx: &mut Receiver<T>, out: &mut [T], silence: T) -> (missing: usize)
    ensures
        final(out)@.len() == old(out)@.len(),
        missing <= old(out)@.len(),
        exists|popped: Seq<Option<T>>|
            popped.len() == old(out)@.len() && final(out)@ == filled(popped, silence)
                && missing == misses(popped) && final(rx).log() == old(rx).log() + somes(popped),
{
    let ghost mut popped: Seq<Option<T>> = Seq::empty();
    let ghost orig = out@;
    let ghost start = rx.log();
    let mut missing: usize = 0;
    let mut i: usize = 0;
    while i < out.len()
        invariant
            out@.len() == orig.len(),
            i <= out@.len(),
            popped.len() == i,
            out@.take(i as int) == filled(popped, silence),
            missing == misses(popped),
            missing <= i,
            rx.log() == start + somes(popped),
        decreases out@.len() - i,
    {
        let p = try_pop(rx);
        let ghost before = popped;
        let ghost prev = out@;
        proof {
            popped = popped.push(p);
            assert(popped.drop_last() =~= before);
            match p {
                Some(x) => {
                    assert(start + somes(before).push(x) =~= (start + somes(before)).push(x));
                },
                None => {},
            }
        }
        if p.is_none() {
            missing += 1;
        }
        out[i] = sample_or_silence(p, silence);
        proof {
            assert forall|q: int| 0 <= q < i + 1 implies #[trigger] out@[q] == filled(popped, silence)[q] by {
                if q < i {
                    assert(out@[q] == prev[q]);
                    assert(prev.take(i as int)[q] == filled(before, silence)[q]);
                    assert(popped[q] == before[q]);
                }
            }
            assert(out@.take(i + 1) =~= filled(popped, silence));
        }
        i += 1;
    }
    proof {
        assert(out@.take(i as int) =~= out@);
    }
    missing
}

/// Offers every sample of `samples` to `tx`, in order, and returns how many
/// were refused because the buffer was full. Never blocks.
pub fn push_all<T: Copy>(tx: &mut Sender<T>, samples: &[T]) -> (dropped: usize)
    ensures
        dropped <= samples@.len(),
        final(tx).capacity() == old(tx).capacity(),
        exists|accepted: Seq<bool>|
            accepted.len() == samples@.len() && dropped == refusals(accepted)
                && final(tx).log() == old(tx).log() + kept(samples@, accepted),
        dropped > 0 ==> final(tx).log().len() >= final(tx).capacity(),
        old(tx).log().len() + samples@.len() <= old(tx).capacity() ==> dropped == 0
            && final(tx).log() == old(tx).log() + samples@,
{
    let ghost mut accepted: Seq<bool> = Seq::empty();
    let ghost start = tx.log();
    let ghost cap = tx.capacity();
    let mut dropped: usize = 0;
    let mut i: usize = 0;
    while i < samples.len()
        invariant
            i <= samples@.len(),
            accepted.len() == i,
            dropped == refusals(accepted),
            dropped <= i,
            tx.capacity() == cap,
            tx.log() == start + kept(samples@.take(i as int), accepted),
            tx.log().len() == start.len() + i - dropped,
            dropped > 0 ==> tx.log().len() >= cap,
            dropped == 0 ==> tx.log() == start + samples@.take(i as int),
        decreases samples@.len() - i,
    {
        let v = samples[i];
        let ok = try_push(tx, v);
        let ghost before = accepted;
        proof {
            accepted = accepted.push(ok);
            assert(accepted.drop_last() =~= before);
            assert(samples@.take(i + 1).drop_last() =~= samples@.take(i as int));
            assert(samples@.take(i + 1).last() == v);
            if ok {
                assert(start + kept(samples@.take(i as int), before).push(v)
                    =~= (start + kept(samples@.take(i as int), before)).push(v));
                assert(start + samples@.take(i + 1) =~= (start + samples@.take(i as int)).push(v));
            }
        }
        if !ok {
            dropped += 1;
        }
        i += 1;
    }
    proof {
        assert(samples@.take(i as int) =~= samples@);
    }
    dropped
}

/// A ring buffer of `capacity` slots, primed with `primed` samples of
/// `silence` so that the receiver starts that many samples behind the
/// sender; also returns how many of those did not fit.
pub fn primed_channel<T: Copy>(capacity: usize, primed: usize, silence: T) -> (r: (Sender<T>, Receiver<T>, usize))
    requires
        capacity <= isize::MAX,
        capacity * vstd::layout::size_of::<T>() <= isize::MAX,
    ensures
        r.2 <= primed,
        primed <= capacity ==> r.2 == 0,
        r.0.capacity() == capacity,
        r.0.log() == Seq::new((primed - r.2) as nat, |i: int| silence),
        r.1.log() == Seq::<T>::empty(),
{
    let (mut tx, rx) = channel(capacity);
    let mut dropped: usize = 0;
    let mut i: usize = 0;
    while i < primed
        invariant
            i <= primed,
            dropped <= i,
            tx.capacity() == capacity,
            tx.log() == Seq::new((i - dropped) as nat, |q: int| silence),
            dropped > 0 ==> tx.log().len() >= capacity,
        decreases primed - i,
    {
        let ghost before = tx.log();
        if !try_push(&mut tx, silence) {
            dropped += 1;
        } else {
            proof {
                assert(before.push(silence) =~= Seq::new((i + 1 - dropped) as nat, |q: int| silence));
            }
        }
        i += 1;
    }
    (tx, rx, dropped)
}

} // verus!
