//! Sequences of requests: what a generator answers to a series of requests
//! and how it is left, stated over the spec functions that the contracts of
//! the operations use, and served by the operations themselves.
use crate::bound::{candidate, draws_needed, is_power_of_two, scaled};
use crate::ieee::{unit_binary32_pattern, unit_binary64_pattern};
use crate::lcg::{
    draw, draws_for_bytes, fraction_53, lemma_step_n_add, lemma_two_steps, seeded, signed_32,
    signed_64, step, step_n, stream_byte,
};
use crate::polar::{accepted_point, points_needed};
use crate::random::Random;
use vstd::arithmetic::power2::lemma2_to64;
use vstd::prelude::*;

verus! {

/// A request to a generator.
#[derive(Clone, Copy, Debug)]
pub enum Request {
    /// `next(bits)`
    Bits(u8),
    /// `next_bytes` on a buffer of the given length, answered by the bytes
    Bytes(usize),
    /// `next_i32()`
    I32,
    /// `next_u32()`
    U32,
    /// `next_i64()`
    I64,
    /// `next_u64()`
    U64,
    /// `next_bool()`, answered by 1 for true and 0 for false
    Bool,
    /// `next_i32_bound(max)`
    Bound(i32),
    /// `next_u32_bound(max)`
    UnsignedBound(u32),
    /// `next_f32()`, answered by the bit pattern
    F32,
    /// `next_f64()`, answered by the bit pattern
    F64,
    /// `next_gaussian_pair()`, answered by the bit patterns of `x`, `y`, `s`
    GaussianPair,
    /// `next_gaussian()`, answered by the bit patterns of a coordinate and `s`
    Gaussian,
}

/// A generator as the contracts see it: its state, and what it holds back
/// for the next Gaussian request.
pub struct Machine {
    pub state: nat,
    pub held: Option<(u64, u64)>,
}

/// The machine that a generator is.
pub open spec fn machine(random: Random) -> Machine {
    Machine { state: random.state(), held: random.pending_gaussian() }
}

/// Whether a generator can serve `request`: at most 48 bits can be asked
/// for at once, a bound is positive, and an unsigned bound is below `2^31`.
pub open spec fn servable(request: Request) -> bool {
    match request {
        Request::Bits(bits) => bits <= 48,
        Request::Bound(max) => max > 0,
        Request::UnsignedBound(max) => 0 < max < 0x8000_0000,
        _ => true,
    }
}

/// The number of draws that a bounded request for `max` takes in `state`.
pub open spec fn bounded_draws(state: nat, max: int) -> nat {
    if is_power_of_two(max) {
        1
    } else {
        draws_needed(state, max)
    }
}

/// The answer to a bounded request for `max` in `state`.
pub open spec fn bounded_answer(state: nat, max: int) -> int {
    if is_power_of_two(max) {
        scaled(candidate(step(state)), max)
    } else {
        candidate(step_n(state, draws_needed(state, max))) % max
    }
}

/// The number of draws that a machine makes for `request`.
pub open spec fn draws(machine: Machine, request: Request) -> nat {
    match request {
        Request::Bytes(len) => draws_for_bytes(len as nat),
        Request::I64 | Request::U64 | Request::F64 => 2,
        Request::Bound(max) => bounded_draws(machine.state, max as int),
        Request::UnsignedBound(max) => bounded_draws(machine.state, max as int),
        Request::GaussianPair => 4 * points_needed(machine.state),
        Request::Gaussian => if machine.held.is_some() {
            0
        } else {
            4 * points_needed(machine.state)
        },
        _ => 1,
    }
}

/// The machine as `request` leaves it.
pub open spec fn after(machine: Machine, request: Request) -> Machine {
    Machine {
        state: step_n(machine.state, draws(machine, request)),
        held: match request {
            Request::Gaussian => if machine.held.is_some() {
                None
            } else {
                Some((accepted_point(machine.state).1, accepted_point(machine.state).2))
            },
            _ => machine.held,
        },
    }
}

/// The values with which a machine answers `request`.
pub open spec fn answer(machine: Machine, request: Request) -> Seq<int> {
    let state = machine.state;
    match request {
        Request::Bits(bits) => seq![draw(state, bits as nat) as int],
        Request::Bytes(len) => Seq::new(len as nat, |i: int| stream_byte(state, i as nat) as int),
        Request::I32 => seq![signed_32(draw(state, 32))],
        Request::U32 => seq![draw(state, 32) as int],
        Request::I64 => seq![
            signed_64(draw(state, 32) * 0x1_0000_0000 + draw(step(state), 32)),
        ],
        Request::U64 => seq![(draw(state, 32) * 0x1_0000_0000 + draw(step(state), 32)) as int],
        Request::Bool => seq![
            if draw(state, 1) == 1 {
                1int
            } else {
                0int
            },
        ],
        Request::Bound(max) => seq![bounded_answer(state, max as int)],
        Request::UnsignedBound(max) => seq![bounded_answer(state, max as int)],
        Request::F32 => seq![unit_binary32_pattern(draw(state, 24)) as int],
        Request::F64 => seq![unit_binary64_pattern(fraction_53(state)) as int],
        Request::GaussianPair => seq![
            accepted_point(state).0 as int,
            accepted_point(state).1 as int,
            accepted_point(state).2 as int,
        ],
        Request::Gaussian => match machine.held {
            Some(held) => seq![held.0 as int, held.1 as int],
            None => seq![accepted_point(state).0 as int, accepted_point(state).2 as int],
        },
    }
}

/// The values of a vector of answers.
pub open spec fn values(words: Seq<i128>) -> Seq<int> {
    Seq::new(words.len(), |i: int| words[i] as int)
}

/// The values of a vector of vectors of answers.
pub open spec fn all_values(answers: Seq<Vec<i128>>) -> Seq<Seq<int>> {
    Seq::new(answers.len(), |i: int| values(answers[i]@))
}

/// The machine that started as `machine` and served `requests` in order.
pub open spec fn run_machine(machine: Machine, requests: Seq<Request>) -> Machine
    decreases requests.len(),
{
    if requests.len() == 0 {
        machine
    } else {
        after(run_machine(machine, requests.drop_last()), requests.last())
    }
}

/// The number of draws that a machine that started as `machine` made to
/// serve `requests`.
pub open spec fn run_draws(machine: Machine, requests: Seq<Request>) -> nat
    decreases requests.len(),
{
    if requests.len() == 0 {
        0
    } else {
        run_draws(machine, requests.drop_last()) + draws(
            run_machine(machine, requests.drop_last()),
            requests.last(),
        )
    }
}

/// The answers of a machine that started as `machine` to `requests`.
pub open spec fn run_answers(machine: Machine, requests: Seq<Request>) -> Seq<Seq<int>>
    decreases requests.len(),
{
    if requests.len() == 0 {
        Seq::empty()
    } else {
        run_answers(machine, requests.drop_last()).push(
            answer(run_machine(machine, requests.drop_last()), requests.last()),
        )
    }
}

/// Serves `request` with the operation it names.
pub fn serve(random: &mut Random, request: Request) -> (r: Vec<i128>)
    requires
        servable(request),
    ensures
        values(r@) == answer(machine(*old(random)), request),
        r@.len() == answer(machine(*old(random)), request).len(),
        forall|i: int|
            0 <= i < r@.len() ==> (#[trigger] r@[i]) as int == answer(
                machine(*old(random)),
                request,
            )[i],
        machine(*final(random)) == after(machine(*old(random)), request),
{
    let ghost before = machine(*random);
    proof {
        lemma_two_steps(random.state());
        lemma2_to64();
    }
    let mut words: Vec<i128> = Vec::new();
    match request {
        Request::Bits(bits) => {
            words.push(random.next(bits) as i128);
        },
        Request::Bytes(len) => {
            let mut bytes: Vec<u8> = Vec::new();
            while bytes.len() < len
                invariant
                    bytes.len() <= len,
                decreases len - bytes.len(),
            {
                bytes.push(0);
            }
            random.next_bytes(bytes.as_mut_slice());
            let mut i: usize = 0;
            while i < len
                invariant
                    i <= len,
                    bytes.len() == len,
                    words.len() == i,
                    forall|k: int| 0 <= k < i ==> words[k] == bytes[k],
                decreases len - i,
            {
                words.push(bytes[i] as i128);
                i = i + 1;
            }
        },
        Request::I32 => {
            words.push(random.next_i32() as i128);
        },
        Request::U32 => {
            words.push(random.next_u32() as i128);
        },
        Request::I64 => {
            words.push(random.next_i64() as i128);
        },
        Request::U64 => {
            words.push(random.next_u64() as i128);
        },
        Request::Bool => {
            words.push(
                if random.next_bool() {
                    1
                } else {
                    0
                },
            );
        },
        Request::Bound(max) => {
            words.push(random.next_i32_bound(max) as i128);
        },
        Request::UnsignedBound(max) => {
            words.push(random.next_u32_bound(max) as i128);
        },
        Request::F32 => {
            words.push(random.next_f32() as i128);
        },
        Request::F64 => {
            words.push(random.next_f64() as i128);
        },
        Request::GaussianPair => {
            let point = random.next_gaussian_pair();
            words.push(point.0 as i128);
            words.push(point.1 as i128);
            words.push(point.2 as i128);
        },
        Request::Gaussian => {
            let pair = random.next_gaussian();
            words.push(pair.0 as i128);
            words.push(pair.1 as i128);
        },
    }
    assert(values(words@) =~= answer(before, request));
    words
}

/// Serves `requests` in order and returns the answers in that order.
pub fn serve_all(random: &mut Random, requests: &Vec<Request>) -> (r: Vec<Vec<i128>>)
    requires
        forall|i: int| 0 <= i < requests@.len() ==> servable(#[trigger] requests@[i]),
    ensures
        all_values(r@) == run_answers(machine(*old(random)), requests@),
        r@.len() == requests@.len(),
        machine(*final(random)) == run_machine(machine(*old(random)), requests@),
{
    let ghost start = machine(*random);
    let mut answers: Vec<Vec<i128>> = Vec::new();
    let mut i: usize = 0;
    proof {
        assert(requests@.take(0) =~= Seq::<Request>::empty());
        assert(all_values(answers@) =~= run_answers(start, requests@.take(0)));
    }
    while i < requests.len()
        invariant
            i <= requests@.len(),
            answers@.len() == i,
            forall|k: int| 0 <= k < requests@.len() ==> servable(#[trigger] requests@[k]),
            all_values(answers@) == run_answers(start, requests@.take(i as int)),
            machine(*random) == run_machine(start, requests@.take(i as int)),
        decreases requests@.len() - i,
    {
        let ghost served = requests@.take(i as int);
        let ghost grown = requests@.take(i + 1);
        let ghost so_far = all_values(answers@);
        let words = serve(random, requests[i]);
        answers.push(words);
        proof {
            assert(grown.drop_last() =~= served);
            assert(grown.last() == requests@[i as int]);
            assert(all_values(answers@) =~= so_far.push(values(words@)));
        }
        i = i + 1;
    }
    proof {
        assert(requests@.take(i as int) =~= requests@);
    }
    answers
}

/// Serving requests only moves the generator along its sequence: the state
/// reached is the starting state advanced by the number of draws made.
pub proof fn lemma_run_advances(machine: Machine, requests: Seq<Request>)
    ensures
        run_machine(machine, requests).state == step_n(
            machine.state,
            run_draws(machine, requests),
        ),
    decreases requests.len(),
{
    if requests.len() > 0 {
        let before = requests.drop_last();
        lemma_run_advances(machine, before);
        lemma_step_n_add(
            machine.state,
            run_draws(machine, before),
            draws(run_machine(machine, before), requests.last()),
        );
    }
}

/// The answer to a request depends on what came before it only through
/// the machine reached: serving `first` and then `second` gives the
/// answers to `first`, followed by the answers that the machine reached
/// gives to `second`.
pub proof fn lemma_run_continues(machine: Machine, first: Seq<Request>, second: Seq<Request>)
    ensures
        run_machine(machine, first + second) == run_machine(run_machine(machine, first), second),
        run_answers(machine, first + second) == run_answers(machine, first) + run_answers(
            run_machine(machine, first),
            second,
        ),
    decreases second.len(),
{
    let reached = run_machine(machine, first);
    if second.len() == 0 {
        assert(first + second =~= first);
        assert(run_answers(machine, first) + run_answers(reached, second) =~= run_answers(
            machine,
            first,
        ));
    } else {
        let shorter = second.drop_last();
        lemma_run_continues(machine, first, shorter);
        assert((first + second).drop_last() =~= first + shorter);
        assert((first + second).last() == second.last());
        assert(run_answers(machine, first + second) =~= run_answers(machine, first)
            + run_answers(reached, second));
    }
}

/// Determinism: two newly seeded generators with the same seed answer the
/// same requests with the same values, in the same order, and are left
/// alike.
pub proof fn lemma_same_seed_same_answers(
    one: Random,
    other: Random,
    seed: u64,
    requests: Seq<Request>,
)
    requires
        one.state() == seeded(seed) && one.pending_gaussian().is_none(),
        other.state() == seeded(seed) && other.pending_gaussian().is_none(),
    ensures
        run_answers(machine(one), requests) == run_answers(machine(other), requests),
        run_machine(machine(one), requests) == run_machine(machine(other), requests),
        run_machine(machine(one), requests).state == step_n(
            seeded(seed),
            run_draws(machine(one), requests),
        ),
{
    lemma_run_advances(machine(one), requests);
}

/// Gaussian pairing: of two Gaussian requests in a row to a machine that
/// holds nothing, the first draws the points up to the first accepted one,
/// four draws each, and the second draws nothing and is answered by the
/// second coordinate of the same point, with the same `s`.
pub proof fn lemma_gaussian_pairing(machine: Machine)
    requires
        machine.held.is_none(),
    ensures
        draws(machine, Request::Gaussian) == 4 * points_needed(machine.state),
        draws(after(machine, Request::Gaussian), Request::Gaussian) == 0,
        answer(machine, Request::Gaussian) == seq![
            accepted_point(machine.state).0 as int,
            accepted_point(machine.state).2 as int,
        ],
        answer(after(machine, Request::Gaussian), Request::Gaussian) == seq![
            accepted_point(machine.state).1 as int,
            accepted_point(machine.state).2 as int,
        ],
        after(after(machine, Request::Gaussian), Request::Gaussian) == (Machine {
            state: step_n(machine.state, 4 * points_needed(machine.state)),
            held: None,
        }),
{
    let once = after(machine, Request::Gaussian);
    assert(step_n(once.state, 0) == once.state);
}

} // verus!
