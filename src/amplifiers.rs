//! Chains of amplifier machines, each running its own copy of one program.
use vstd::prelude::*;
use itertools::Itertools;
use crate::error::{AocErr, AocResult};
use crate::intcode::{Context, Data};
use crate::machine::{exec_spec, initial_state, resume_spec, MachineState, MAX_STEPS};

verus! {

/// `p` is an arrangement of the `k` values of `items`, each used at most once.
pub open spec fn is_arrangement(p: Seq<u8>, items: Seq<u8>, k: int) -> bool {
    &&& p.len() == k
    &&& p.no_duplicates()
    &&& forall|j: int| 0 <= j < p.len() ==> items.contains(#[trigger] p[j])
}

/// `a` comes strictly before `b` in lexicographic order.
pub open spec fn lex_less(a: Seq<u8>, b: Seq<u8>) -> bool {
    exists|k: int|
        0 <= k < a.len() && k < b.len() && a.subrange(0, k) == b.subrange(0, k) && #[trigger] a[k] < b[k]
}

/// Relies on itertools' `Itertools::permutations`: every `k`-permutation of
/// the items, each once, in lexicographic order of the items' positions
/// (here the items are increasing, so of their values).
#[verifier::external_body]
fn permutations_of(items: &Vec<u8>, k: usize) -> (r: Vec<Vec<u8>>)
    requires
        forall|i: int, j: int| 0 <= i < j < items@.len() ==> items@[i] < items@[j],
        k <= items@.len(),
    ensures
        forall|i: int| 0 <= i < r@.len() ==> is_arrangement(#[trigger] r@[i]@, items@, k as int),
        forall|i: int, j: int| 0 <= i < j < r@.len() ==> r@[i]@ != r@[j]@,
        forall|i: int, j: int| 0 <= i < j < r@.len() ==> lex_less(r@[i]@, r@[j]@),
        forall|p: Seq<u8>| #[trigger] is_arrangement(p, items@, k as int) ==> exists|i: int|
            0 <= i < r@.len() && #[trigger] r@[i]@ == p,
{
    items.iter().cloned().permutations(k).collect()
}

/// `p` assigns each of the five amplifiers a distinct phase setting in
/// `from .. from + 5`.
pub open spec fn is_setting(p: Seq<u8>, from: int) -> bool {
    &&& p.len() == 5
    &&& p.no_duplicates()
    &&& forall|j: int| 0 <= j < 5 ==> from <= #[trigger] p[j] < from + 5
}

/// Every phase setting over `from .. from + 5`, each once, in lexicographic order.
pub fn settings_perm(from: u8) -> (r: Vec<[u8; 5]>)
    requires
        from <= 250,
    ensures
        forall|i: int| 0 <= i < r@.len() ==> is_setting(#[trigger] r@[i]@, from as int),
        forall|i: int, j: int| 0 <= i < j < r@.len() ==> r@[i]@ != r@[j]@,
        forall|i: int, j: int| 0 <= i < j < r@.len() ==> lex_less(r@[i]@, r@[j]@),
        forall|p: Seq<u8>| #[trigger] is_setting(p, from as int) ==> exists|i: int|
            0 <= i < r@.len() && #[trigger] r@[i]@ == p,
{
    let items: Vec<u8> = vec![from, from + 1, from + 2, from + 3, from + 4];
    assert(items@ =~= seq![from, (from + 1) as u8, (from + 2) as u8, (from + 3) as u8, (from + 4) as u8]);
    assert forall|p: Seq<u8>| is_setting(p, from as int) <==> is_arrangement(p, items@, 5) by {
        assert forall|x: u8| items@.contains(x) <==> from <= x < from + 5 by {
            if from <= x < from + 5 {
                assert(items@[x - from] == x);
            }
        }
    }
    let perms = permutations_of(&items, 5);
    let mut out: Vec<[u8; 5]> = Vec::new();
    let mut i: usize = 0;
    while i < perms.len()
        invariant
            i <= perms@.len(),
            out@.len() == i,
            forall|j: int| 0 <= j < i ==> (#[trigger] out@[j])@ == perms@[j]@,
            forall|j: int| 0 <= j < perms@.len() ==> is_arrangement(#[trigger] perms@[j]@, items@, 5),
        decreases perms.len() - i,
    {
        let p = &perms[i];
        assert(is_arrangement(perms@[i as int]@, items@, 5));
        let arr: [u8; 5] = [p[0], p[1], p[2], p[3], p[4]];
        assert(arr@ =~= p@);
        out.push(arr);
        i += 1;
    }
    assert forall|p: Seq<u8>| #[trigger] is_setting(p, from as int) implies exists|i: int|
        0 <= i < out@.len() && #[trigger] out@[i]@ == p by {
        assert(is_arrangement(p, items@, 5));
        let i = choose|i: int| 0 <= i < perms@.len() && #[trigger] perms@[i]@ == p;
        assert(out@[i]@ == p);
    }
    assert forall|i: int, j: int| 0 <= i < j < out@.len() implies out@[i]@ != out@[j]@ by {
        assert(perms@[i]@ != perms@[j]@);
    }
    assert forall|i: int, j: int| 0 <= i < j < out@.len() implies lex_less(out@[i]@, out@[j]@) by {
        assert(lex_less(perms@[i]@, perms@[j]@));
        assert(out@[i]@ == perms@[i]@ && out@[j]@ == perms@[j]@);
    }
    out
}

/// A copy of a program image.
fn copy_data(data: &Data) -> (r: Data)
    ensures
        r.0@ == data.0@,
{
    let mut v: Vec<i64> = Vec::new();
    let mut i: usize = 0;
    while i < data.0.len()
        invariant
            i <= data.0@.len(),
            v@ == data.0@.subrange(0, i as int),
        decreases data.0.len() - i,
    {
        v.push(data.0[i]);
        i += 1;
        assert(v@ =~= data.0@.subrange(0, i as int));
    }
    assert(v@ =~= data.0@);
    Data(v)
}

/// The signal out of amplifiers `i ..` in series, each fed its phase setting
/// and then the previous amplifier's signal, run to completion.
pub open spec fn amps_from(image: Seq<i64>, settings: Seq<u8>, i: int, signal: i64) -> AocResult<i64>
    decreases settings.len() - i,
{
    if i >= settings.len() {
        Ok(signal)
    } else {
        match exec_spec(initial_state(image, seq![settings[i] as i64, signal]), 0).0 {
            Ok(v) => amps_from(image, settings, i + 1, v),
            Err(e) => Err(e),
        }
    }
}

/// Runs the amplifiers in series and returns the last one's output.
pub fn exec_amps(data: &Data, settings: [u8; 5], input: i64) -> (r: AocResult<i64>)
    ensures
        r == amps_from(data.0@, settings@, 0, input),
{
    let mut signal = input;
    let mut i: usize = 0;
    while i < 5
        invariant
            i <= 5,
            settings@.len() == 5,
            amps_from(data.0@, settings@, i as int, signal) == amps_from(data.0@, settings@, 0, input),
        decreases 5 - i,
    {
        let inputs = [settings[i] as i64, signal];
        assert(inputs@ =~= seq![settings@[i as int] as i64, signal]);
        let mut ctx = Context::from_data(copy_data(data), &inputs);
        signal = ctx.exec()?;
        i += 1;
    }
    Ok(signal)
}

/// The result is a signal of at most `m`.
pub open spec fn ok_at_most(r: AocResult<i64>, m: int) -> bool {
    match r {
        Ok(v) => v <= m,
        Err(_) => false,
    }
}

/// The highest signal that the amplifiers in series give over every phase
/// setting in `0 .. 5`. Fails when some setting fails (with the error of
/// one that does).
pub fn find_max_signal(data: Data, input: i64) -> (r: AocResult<i64>)
    ensures
        r is Ok <==> forall|p: Seq<u8>| #[trigger] is_setting(p, 0) ==> amps_from(data.0@, p, 0, input) is Ok,
        r matches Ok(m) ==> exists|p: Seq<u8>| #[trigger] is_setting(p, 0) && amps_from(data.0@, p, 0, input) == Ok::<i64, AocErr>(m),
        r matches Ok(m) ==> forall|p: Seq<u8>| #[trigger] is_setting(p, 0) ==> ok_at_most(amps_from(data.0@, p, 0, input), m as int),
        r matches Err(e) ==> exists|p: Seq<u8>| #[trigger] is_setting(p, 0) && amps_from(data.0@, p, 0, input) == Err::<i64, AocErr>(e),
{
    let perms = settings_perm(0);
    let ghost image = data.0@;
    let mut best: Option<i64> = None;
    let mut i: usize = 0;
    while i < perms.len()
        invariant
            i <= perms@.len(),
            image == data.0@,
            forall|j: int| 0 <= j < perms@.len() ==> is_setting(#[trigger] perms@[j]@, 0),
            forall|p: Seq<u8>| #[trigger] is_setting(p, 0) ==> exists|j: int| 0 <= j < perms@.len() && #[trigger] perms@[j]@ == p,
            i == 0 <==> best is None,
            forall|j: int| 0 <= j < i ==> ok_at_most(amps_from(image, (#[trigger] perms@[j])@, 0, input), best->Some_0 as int),
            i > 0 ==> exists|j: int| 0 <= j < i && amps_from(image, (#[trigger] perms@[j])@, 0, input) == Ok::<i64, AocErr>(best->Some_0),
        decreases perms.len() - i,
    {
        let v = match exec_amps(&data, perms[i], input) {
            Ok(v) => v,
            Err(e) => {
                assert(is_setting(perms@[i as int]@, 0));
                return Err(e);
            },
        };
        let ghost old_best = best;
        best = match best {
            Some(b) => if v > b { Some(v) } else { Some(b) },
            None => Some(v),
        };
        proof {
            assert forall|j: int| 0 <= j < i + 1 implies ok_at_most(amps_from(image, (#[trigger] perms@[j])@, 0, input), best->Some_0 as int) by {
                if j < i {
                }
            }
            if old_best is Some && v <= old_best->Some_0 {
                let j = choose|j: int| 0 <= j < i && amps_from(image, (#[trigger] perms@[j])@, 0, input) == Ok::<i64, AocErr>(old_best->Some_0);
                assert(0 <= j < i + 1);
            } else {
                assert(amps_from(image, perms@[i as int]@, 0, input) == Ok::<i64, AocErr>(v));
            }
        }
        i += 1;
    }
    proof {
        assert forall|p: Seq<u8>| #[trigger] is_setting(p, 0) implies ok_at_most(amps_from(image, p, 0, input), best->Some_0 as int) by {
            let j = choose|j: int| 0 <= j < perms@.len() && #[trigger] perms@[j]@ == p;
        }
        let p0: Seq<u8> = seq![0u8, 1, 2, 3, 4];
        assert(is_setting(p0, 0));
        let j0 = choose|j: int| 0 <= j < perms@.len() && #[trigger] perms@[j]@ == p0;
    }
    let b = best.unwrap();
    proof {
        let j = choose|j: int| 0 <= j < i && amps_from(image, (#[trigger] perms@[j])@, 0, input) == Ok::<i64, AocErr>(b);
        assert(is_setting(perms@[j]@, 0));
    }
    Ok(b)
}

/// The machines' states.
pub open spec fn states_of(ctxs: Seq<Context>) -> Seq<MachineState> {
    ctxs.map_values(|c: Context| c@)
}

proof fn lemma_states_push(cs: Seq<Context>, c: Context)
    ensures
        states_of(cs.push(c)) == states_of(cs).push(c@),
{
    assert(states_of(cs.push(c)) =~= states_of(cs).push(c@));
}

/// The amplifiers in a feedback loop, from amplifier `ix` with `signal`
/// waiting: a running amplifier gets the signal, resumes to its next output,
/// and passes that output on to the next one (the last to the first); the
/// loop ends with the latest signal when it reaches a halted amplifier. At
/// most `fuel` resumptions are made.
pub open spec fn feedback_from(states: Seq<MachineState>, ix: int, signal: i64, fuel: nat) -> AocResult<i64>
    decreases fuel,
{
    if fuel == 0 {
        Err(AocErr::ExceededMaxSteps)
    } else if states[ix].halted {
        Ok(signal)
    } else {
        let s = MachineState { input: states[ix].input.push(signal), ..states[ix] };
        let (r, s2) = resume_spec(s);
        match r {
            Err(e) => Err(e),
            Ok(_) => if s2.output.len() == 0 {
                Err(AocErr::NoOutput)
            } else {
                feedback_from(states.update(ix, s2), (ix + 1) % 5, s2.output.last(), (fuel - 1) as nat)
            },
        }
    }
}

/// Five fresh amplifiers, each with its phase setting queued.
pub open spec fn feedback_start(image: Seq<i64>, settings: Seq<u8>) -> Seq<MachineState> {
    Seq::new(5, |i: int| initial_state(image, seq![settings[i] as i64]))
}

/// Runs the amplifiers in a feedback loop, starting with `input` at the
/// first one, and returns the last signal; gives up after `MAX_STEPS`
/// resumptions in all.
pub fn exec_amps2(data: &Data, settings: [u8; 5], input: i64) -> (r: AocResult<i64>)
    ensures
        r == feedback_from(feedback_start(data.0@, settings@), 0, input, MAX_STEPS as nat),
{
    let ghost start = feedback_start(data.0@, settings@);
    let mut ctxs: Vec<Context> = Vec::new();
    let mut i: usize = 0;
    while i < 5
        invariant
            i <= 5,
            settings@.len() == 5,
            start == feedback_start(data.0@, settings@),
            states_of(ctxs@) == start.subrange(0, i as int),
        decreases 5 - i,
    {
        let inputs = [settings[i] as i64];
        assert(inputs@ =~= seq![settings@[i as int] as i64]);
        let ctx = Context::from_data(copy_data(data), &inputs);
        proof {
            lemma_states_push(ctxs@, ctx);
        }
        ctxs.push(ctx);
        i += 1;
        assert(states_of(ctxs@) =~= start.subrange(0, i as int));
    }
    assert(start.subrange(0, 5) =~= start);
    let mut signal = input;
    let mut ix: usize = 0;
    let mut rounds: usize = 0;
    while rounds < MAX_STEPS
        invariant
            rounds <= MAX_STEPS,
            ix < 5,
            ctxs@.len() == 5,
            start == feedback_start(data.0@, settings@),
            feedback_from(states_of(ctxs@), ix as int, signal, (MAX_STEPS - rounds) as nat)
                == feedback_from(start, 0, input, MAX_STEPS as nat),
        decreases MAX_STEPS - rounds,
    {
        let ghost states = states_of(ctxs@);
        assert(states[ix as int] == ctxs@[ix as int]@);
        if ctxs[ix].halted() {
            return Ok(signal);
        }
        let mut ctx = ctxs.remove(ix);
        ctx.push_input(signal);
        let res = ctx.resume();
        if let Err(e) = res {
            return Err(e);
        }
        signal = match ctx.output() {
            Some(v) => v,
            None => {
                return Err(AocErr::NoOutput);
            },
        };
        let ghost s2 = ctx@;
        ctxs.insert(ix, ctx);
        assert(states_of(ctxs@) =~= states.update(ix as int, s2));
        ix = (ix + 1) % 5;
        rounds += 1;
    }
    Err(AocErr::ExceededMaxSteps)
}

/// The highest signal that the amplifiers in a feedback loop give over
/// every phase setting in `5 .. 10`. Fails when some setting fails (with the
/// error of one that does).
pub fn find_max_signal2(data: Data, input: i64) -> (r: AocResult<i64>)
    ensures
        r is Ok <==> forall|p: Seq<u8>| #[trigger] is_setting(p, 5) ==> feedback_from(feedback_start(data.0@, p), 0, input, MAX_STEPS as nat) is Ok,
        r matches Ok(m) ==> exists|p: Seq<u8>| #[trigger] is_setting(p, 5) && feedback_from(feedback_start(data.0@, p), 0, input, MAX_STEPS as nat) == Ok::<i64, AocErr>(m),
        r matches Ok(m) ==> forall|p: Seq<u8>| #[trigger] is_setting(p, 5) ==> ok_at_most(feedback_from(feedback_start(data.0@, p), 0, input, MAX_STEPS as nat), m as int),
        r matches Err(e) ==> exists|p: Seq<u8>| #[trigger] is_setting(p, 5) && feedback_from(feedback_start(data.0@, p), 0, input, MAX_STEPS as nat) == Err::<i64, AocErr>(e),
{
    let perms = settings_perm(5);
    let ghost image = data.0@;
    let mut best: Option<i64> = None;
    let mut i: usize = 0;
    while i < perms.len()
        invariant
            i <= perms@.len(),
            image == data.0@,
            forall|j: int| 0 <= j < perms@.len() ==> is_setting(#[trigger] perms@[j]@, 5),
            forall|p: Seq<u8>| #[trigger] is_setting(p, 5) ==> exists|j: int| 0 <= j < perms@.len() && #[trigger] perms@[j]@ == p,
            i == 0 <==> best is None,
            forall|j: int| 0 <= j < i ==> ok_at_most(feedback_from(feedback_start(image, (#[trigger] perms@[j])@), 0, input, MAX_STEPS as nat), best->Some_0 as int),
            i > 0 ==> exists|j: int| 0 <= j < i && feedback_from(feedback_start(image, (#[trigger] perms@[j])@), 0, input, MAX_STEPS as nat) == Ok::<i64, AocErr>(best->Some_0),
        decreases perms.len() - i,
    {
        let v = match exec_amps2(&data, perms[i], input) {
            Ok(v) => v,
            Err(e) => {
                assert(is_setting(perms@[i as int]@, 5));
                return Err(e);
            },
        };
        let ghost old_best = best;
        best = match best {
            Some(b) => if v > b { Some(v) } else { Some(b) },
            None => Some(v),
        };
        proof {
            assert forall|j: int| 0 <= j < i + 1 implies ok_at_most(feedback_from(feedback_start(image, (#[trigger] perms@[j])@), 0, input, MAX_STEPS as nat), best->Some_0 as int) by {
                if j < i {
                }
            }
            if old_best is Some && v <= old_best->Some_0 {
                let j = choose|j: int| 0 <= j < i && feedback_from(feedback_start(image, (#[trigger] perms@[j])@), 0, input, MAX_STEPS as nat) == Ok::<i64, AocErr>(old_best->Some_0);
                assert(0 <= j < i + 1);
            } else {
                assert(feedback_from(feedback_start(image, perms@[i as int]@), 0, input, MAX_STEPS as nat) == Ok::<i64, AocErr>(v));
            }
        }
        i += 1;
    }
    proof {
        assert forall|p: Seq<u8>| #[trigger] is_setting(p, 5) implies ok_at_most(feedback_from(feedback_start(image, p), 0, input, MAX_STEPS as nat), best->Some_0 as int) by {
            let j = choose|j: int| 0 <= j < perms@.len() && #[trigger] perms@[j]@ == p;
        }
        let p0: Seq<u8> = seq![5u8, 6, 7, 8, 9];
        assert(is_setting(p0, 5));
        let j0 = choose|j: int| 0 <= j < perms@.len() && #[trigger] perms@[j]@ == p0;
    }
    let b = best.unwrap();
    proof {
        let j = choose|j: int| 0 <= j < i && feedback_from(feedback_start(image, (#[trigger] perms@[j])@), 0, input, MAX_STEPS as nat) == Ok::<i64, AocErr>(b);
        assert(is_setting(perms@[j]@, 5));
    }
    Ok(b)
}

} // verus!
