use vstd::prelude::*;

use crate::error::EnigmaError;
use crate::rotor::Rotor;
use crate::rotor::RotorView;
use crate::rotor::lemma_mod_in_range;
use crate::rotor::lemma_rotor_round_trip;
use crate::rotor::lemma_rotor_round_trip_rev;
use crate::rotor::lemma_shift_cancel;
use crate::rotor::rotor_advanced;
use crate::rotor::rotor_at_notch;
use crate::rotor::rotor_ltr;
use crate::rotor::rotor_ltr_defined;
use crate::rotor::rotor_rtl;
use crate::rotor::rotor_wf;
use crate::wiring::Wiring;
use crate::wiring::is_involution;
use crate::wiring::is_permutation;
use crate::wiring::wiring_fwd;
use crate::wiring::wiring_wf;

verus! {

/// The mathematical content of the rotor mechanism: the non-stepping entry
/// wheel, the rotor stack ordered right to left, the reflector table, and
/// the shared contact count.
pub ghost struct MechView {
    pub etw: RotorView,
    pub rotors: Seq<RotorView>,
    pub reflector: Seq<u8>,
    pub alphabet_size: nat,
}

/// The views of a sequence of rotors.
pub open spec fn rotor_views(s: Seq<Rotor>) -> Seq<RotorView> {
    s.map_values(|r: Rotor| r@)
}

/// A mechanism is well formed when it has at least three rotors and the
/// entry wheel, every rotor and the reflector all share the alphabet size.
pub open spec fn mech_wf(m: MechView) -> bool {
    &&& m.rotors.len() >= 3
    &&& rotor_wf(m.etw) && m.etw.wiring.len() == m.alphabet_size
    &&& forall|i: int| 0 <= i < m.rotors.len()
        ==> rotor_wf(#[trigger] m.rotors[i]) && m.rotors[i].wiring.len() == m.alphabet_size
    &&& wiring_wf(m.reflector) && m.reflector.len() == m.alphabet_size
}

/// The stepping rule for rotor `i` of the stack, decided entirely from the
/// positions as they stand before the keystroke: the rightmost rotor always
/// advances; a middle rotor advances when it or its right neighbour stands
/// at a turnover position; the leftmost advances only when its right
/// neighbour does so stand. The middle rule is what reproduces the
/// double-stepping anomaly.
pub open spec fn should_advance(rs: Seq<RotorView>, i: int) -> bool {
    if i == 0 {
        true
    } else if i < rs.len() - 1 {
        rotor_at_notch(rs[i]) || rotor_at_notch(rs[i - 1])
    } else {
        rotor_at_notch(rs[rs.len() - 2])
    }
}

/// The rotor stack after one keystroke's stepping.
pub open spec fn stepped_rotors(rs: Seq<RotorView>) -> Seq<RotorView> {
    Seq::new(rs.len(), |i: int| if should_advance(rs, i) { rotor_advanced(rs[i]) } else { rs[i] })
}

/// How one call of `advance` relates the mechanism before and after: the
/// rotors step by the rule above and everything else stays as it was.
pub open spec fn mech_stepped(pre: MechView, post: MechView) -> bool {
    &&& post.etw == pre.etw
    &&& post.reflector == pre.reflector
    &&& post.alphabet_size == pre.alphabet_size
    &&& post.rotors == stepped_rotors(pre.rotors)
}

/// One rotor of the stack on the way toward the reflector: shift into the
/// rotor's frame by its position, pass the wiring right to left, shift back
/// into the fixed frame.
pub open spec fn mech_step_fwd(r: RotorView, n: int, c: int) -> int {
    (rotor_rtl(r, (c + r.position) % n) + n - r.position) % n
}

/// One rotor of the stack on the way back from the reflector.
pub open spec fn mech_step_bwd(r: RotorView, n: int, c: int) -> int {
    (rotor_ltr(r, (c + r.position) % n) + n - r.position) % n
}

/// Whether the backward pass through one rotor finds a wired contact.
pub open spec fn mech_step_bwd_defined(r: RotorView, n: int, c: int) -> bool {
    rotor_ltr_defined(r, (c + r.position) % n)
}

/// The whole stack on the way toward the reflector, rightmost rotor first.
pub open spec fn mech_fwd(rs: Seq<RotorView>, n: int, c: int) -> int
    decreases rs.len(),
{
    if rs.len() == 0 {
        c
    } else {
        mech_fwd(rs.drop_first(), n, mech_step_fwd(rs[0], n, c))
    }
}

/// The whole stack on the way back, leftmost rotor first. Meaningful only
/// where `mech_bwd_defined` holds.
pub open spec fn mech_bwd(rs: Seq<RotorView>, n: int, c: int) -> int
    decreases rs.len(),
{
    if rs.len() == 0 {
        c
    } else {
        mech_step_bwd(rs[0], n, mech_bwd(rs.drop_first(), n, c))
    }
}

/// Whether every backward step through the stack finds a wired contact.
pub open spec fn mech_bwd_defined(rs: Seq<RotorView>, n: int, c: int) -> bool
    decreases rs.len(),
{
    if rs.len() == 0 {
        true
    } else {
        mech_bwd_defined(rs.drop_first(), n, c)
            && mech_step_bwd_defined(rs[0], n, mech_bwd(rs.drop_first(), n, c))
    }
}

/// The full signal path of one keystroke, rotor positions held fixed:
/// entry wheel in, rotor stack right to left, reflector, rotor stack left
/// to right, entry wheel out.
pub open spec fn mech_translate(m: MechView, x: int) -> int {
    let n = m.alphabet_size as int;
    rotor_ltr(
        m.etw,
        mech_bwd(m.rotors, n, wiring_fwd(m.reflector, mech_fwd(m.rotors, n, rotor_rtl(m.etw, x)))),
    )
}

/// Whether every backward reading along the signal path finds a wired
/// contact; with true permutation wirings this always holds.
pub open spec fn mech_translate_defined(m: MechView, x: int) -> bool {
    let n = m.alphabet_size as int;
    let reflected = wiring_fwd(m.reflector, mech_fwd(m.rotors, n, rotor_rtl(m.etw, x)));
    mech_bwd_defined(m.rotors, n, reflected)
        && rotor_ltr_defined(m.etw, mech_bwd(m.rotors, n, reflected))
}

/// Every rotor of the stack is well formed and shares the contact count `n`.
pub open spec fn rotors_uniform(rs: Seq<RotorView>, n: int) -> bool {
    forall|i: int| 0 <= i < rs.len()
        ==> rotor_wf(#[trigger] rs[i]) && rs[i].wiring.len() == n
}

/// Every rotor of the stack carries a true permutation wiring.
pub open spec fn rotors_permutations(rs: Seq<RotorView>) -> bool {
    forall|i: int| 0 <= i < rs.len() ==> is_permutation(#[trigger] rs[i].wiring)
}

/// Appending a rotor on the left end of the stack appends its step to the
/// end of the forward pass.
proof fn lemma_mech_fwd_snoc(s: Seq<RotorView>, r: RotorView, n: int, c: int)
    ensures
        mech_fwd(s.push(r), n, c) == mech_step_fwd(r, n, mech_fwd(s, n, c)),
    decreases s.len(),
{
    assert(s.push(r).len() == s.len() + 1);
    if s.len() == 0 {
        assert(s.push(r)[0] == r);
        assert(s.push(r).drop_first() =~= Seq::<RotorView>::empty());
        assert(mech_fwd(s.push(r), n, c)
            == mech_fwd(Seq::<RotorView>::empty(), n, mech_step_fwd(r, n, c)));
        assert(mech_fwd(Seq::<RotorView>::empty(), n, mech_step_fwd(r, n, c))
            == mech_step_fwd(r, n, c));
        assert(mech_fwd(s, n, c) == c);
    } else {
        assert(s.push(r)[0] == s[0]);
        assert(s.push(r).drop_first() =~= s.drop_first().push(r));
        assert(mech_fwd(s.push(r), n, c)
            == mech_fwd(s.drop_first().push(r), n, mech_step_fwd(s[0], n, c)));
        lemma_mech_fwd_snoc(s.drop_first(), r, n, mech_step_fwd(s[0], n, c));
        assert(mech_fwd(s, n, c) == mech_fwd(s.drop_first(), n, mech_step_fwd(s[0], n, c)));
    }
}

/// A backward pass that finds every contact still does so from any rotor
/// of the stack leftward.
proof fn lemma_mech_bwd_defined_suffix(s: Seq<RotorView>, n: int, c: int, k: int)
    requires
        0 <= k <= s.len(),
        mech_bwd_defined(s, n, c),
    ensures
        mech_bwd_defined(s.subrange(k, s.len() as int), n, c),
    decreases k,
{
    if k == 0 {
        assert(s.subrange(0, s.len() as int) =~= s);
    } else {
        lemma_mech_bwd_defined_suffix(s, n, c, k - 1);
        let sub = s.subrange(k - 1, s.len() as int);
        assert(sub.drop_first() =~= s.subrange(k, s.len() as int));
    }
}

/// One rotor's forward step, undone by its backward step and the other way
/// round, given a true permutation wiring.
proof fn lemma_mech_step_round_trip(r: RotorView, n: int, c: int)
    requires
        rotor_wf(r),
        r.wiring.len() == n,
        is_permutation(r.wiring),
        0 <= c < n,
    ensures
        0 <= mech_step_fwd(r, n, c) < n,
        mech_step_bwd_defined(r, n, mech_step_fwd(r, n, c)),
        mech_step_bwd(r, n, mech_step_fwd(r, n, c)) == c,
        mech_step_bwd_defined(r, n, c),
        0 <= mech_step_bwd(r, n, c) < n,
        mech_step_fwd(r, n, mech_step_bwd(r, n, c)) == c,
{
    let pos = r.position as int;
    let d = (c + pos) % n;
    lemma_shift_cancel(c, pos, n);
    // forward then backward
    lemma_rotor_round_trip(r, d);
    let y = rotor_rtl(r, d);
    lemma_mod_in_range(y + n - pos, n);
    lemma_shift_cancel(y, pos, n);
    assert((mech_step_fwd(r, n, c) + pos) % n == y);
    lemma_shift_cancel(d, pos, n);
    // backward then forward
    lemma_rotor_round_trip_rev(r, d);
    let z = rotor_ltr(r, d);
    lemma_mod_in_range(z + n - pos, n);
    lemma_shift_cancel(z, pos, n);
    assert((mech_step_bwd(r, n, c) + pos) % n == z);
}

/// The stack's uniformity and permutation properties carry to the stack
/// without its rightmost rotor.
proof fn lemma_drop_first_props(rs: Seq<RotorView>, n: int)
    requires
        rs.len() > 0,
        rotors_uniform(rs, n),
        rotors_permutations(rs),
    ensures
        rotors_uniform(rs.drop_first(), n),
        rotors_permutations(rs.drop_first()),
{
    assert forall|i: int| 0 <= i < rs.drop_first().len()
        implies rotor_wf(#[trigger] rs.drop_first()[i]) && rs.drop_first()[i].wiring.len() == n
            && is_permutation(rs.drop_first()[i].wiring) by {
        assert(rs.drop_first()[i] == rs[i + 1]);
    }
}

/// The backward pass undoes the forward pass through the whole stack.
proof fn lemma_mech_bwd_of_fwd(rs: Seq<RotorView>, n: int, c: int)
    requires
        n >= 1,
        rotors_uniform(rs, n),
        rotors_permutations(rs),
        0 <= c < n,
    ensures
        0 <= mech_fwd(rs, n, c) < n,
        mech_bwd_defined(rs, n, mech_fwd(rs, n, c)),
        mech_bwd(rs, n, mech_fwd(rs, n, c)) == c,
    decreases rs.len(),
{
    if rs.len() > 0 {
        lemma_mech_step_round_trip(rs[0], n, c);
        let c1 = mech_step_fwd(rs[0], n, c);
        lemma_drop_first_props(rs, n);
        lemma_mech_bwd_of_fwd(rs.drop_first(), n, c1);
    }
}

/// The forward pass undoes the backward pass through the whole stack,
/// which also shows the backward pass finds every contact.
proof fn lemma_mech_fwd_of_bwd(rs: Seq<RotorView>, n: int, c: int)
    requires
        n >= 1,
        rotors_uniform(rs, n),
        rotors_permutations(rs),
        0 <= c < n,
    ensures
        mech_bwd_defined(rs, n, c),
        0 <= mech_bwd(rs, n, c) < n,
        mech_fwd(rs, n, mech_bwd(rs, n, c)) == c,
    decreases rs.len(),
{
    if rs.len() > 0 {
        lemma_drop_first_props(rs, n);
        lemma_mech_fwd_of_bwd(rs.drop_first(), n, c);
        let b = mech_bwd(rs.drop_first(), n, c);
        lemma_mech_step_round_trip(rs[0], n, b);
    }
}

/// With rotor positions held fixed, the signal path is an involution: a
/// symbol sent through the mechanism twice comes back to itself. This is a
/// direct consequence of the reflector being an involution and the stack
/// being traversed symmetrically, forward then backward, through true
/// permutation wirings.
pub proof fn lemma_mechanism_involution(m: MechView, x: int)
    requires
        mech_wf(m),
        is_permutation(m.etw.wiring),
        rotors_permutations(m.rotors),
        is_involution(m.reflector),
        0 <= x < m.alphabet_size,
    ensures
        mech_translate_defined(m, x),
        0 <= mech_translate(m, x) < m.alphabet_size,
        mech_translate_defined(m, mech_translate(m, x)),
        mech_translate(m, mech_translate(m, x)) == x,
{
    let n = m.alphabet_size as int;
    assert(rotors_uniform(m.rotors, n));
    // the first pass
    lemma_rotor_round_trip(m.etw, x);
    let a = rotor_rtl(m.etw, x);
    lemma_mech_bwd_of_fwd(m.rotors, n, a);
    let b = mech_fwd(m.rotors, n, a);
    let c = wiring_fwd(m.reflector, b);
    assert(0 <= c < n);
    lemma_mech_fwd_of_bwd(m.rotors, n, c);
    let d = mech_bwd(m.rotors, n, c);
    lemma_rotor_round_trip_rev(m.etw, d);
    let y = rotor_ltr(m.etw, d);
    assert(mech_translate(m, x) == y);
    assert(mech_translate_defined(m, x));
    // the second pass retraces it
    assert(rotor_rtl(m.etw, y) == d);
    assert(mech_fwd(m.rotors, n, d) == c);
    assert(wiring_fwd(m.reflector, c) == b);
    assert(mech_bwd(m.rotors, n, b) == a);
    assert(rotor_ltr(m.etw, a) == x);
    assert(mech_translate(m, y) == x);
}

/// An ordered stack of rotors between a fixed entry wheel and a fixed
/// reflector. It owns the stepping algorithm, run once per keystroke, and
/// the full bidirectional signal path.
#[derive(Debug)]
pub struct RotorMechanism {
    etw: Rotor,
    rotors: Vec<Rotor>,
    reflector: Wiring,
    alphabet_size: usize,
}

impl View for RotorMechanism {
    type V = MechView;

    closed spec fn view(&self) -> MechView {
        MechView {
            etw: self.etw@,
            rotors: rotor_views(self.rotors@),
            reflector: self.reflector@,
            alphabet_size: self.alphabet_size as nat,
        }
    }
}

impl RotorMechanism {
    /// Assembles a mechanism, rejecting a stack of fewer than three rotors
    /// or a rotor whose contact count differs from the alphabet size.
    pub fn new(etw: Rotor, rotors: Vec<Rotor>, reflector: Wiring, alphabet_size: usize)
        -> (res: Result<RotorMechanism, EnigmaError>)
        requires
            rotor_wf(etw@),
            etw@.wiring.len() == alphabet_size,
            wiring_wf(reflector@),
            reflector@.len() == alphabet_size,
            forall|i: int| 0 <= i < rotors@.len() ==> rotor_wf(#[trigger] rotors@[i]@),
        ensures
            res is Ok <==> rotors@.len() >= 3
                && (forall|i: int| 0 <= i < rotors@.len()
                    ==> (#[trigger] rotors@[i]@.wiring.len()) == alphabet_size),
            res matches Ok(m) ==> m@ == (MechView {
                etw: etw@,
                rotors: rotor_views(rotors@),
                reflector: reflector@,
                alphabet_size: alphabet_size as nat,
            }) && mech_wf(m@),
            rotors@.len() < 3 ==> res == Err::<RotorMechanism, EnigmaError>(
                EnigmaError::TooFewRotors,
            ),
            res is Err && rotors@.len() >= 3 ==> res == Err::<RotorMechanism, EnigmaError>(
                EnigmaError::RotorSizeMismatch,
            ),
    {
        if rotors.len() < 3 {
            return Err(EnigmaError::TooFewRotors);
        }
        let count = rotors.len();
        for i in 0..count
            invariant
                count == rotors@.len() >= 3,
                forall|k: int| 0 <= k < i
                    ==> (#[trigger] rotors@[k]@.wiring.len()) == alphabet_size,
        {
            if rotors[i].num_positions() != alphabet_size {
                return Err(EnigmaError::RotorSizeMismatch);
            }
        }
        let mech = RotorMechanism { etw, rotors, reflector, alphabet_size };
        proof {
            assert(mech@.rotors =~= rotor_views(rotors@));
        }
        Ok(mech)
    }

    /// The position of rotor `index` of the stack, counted from the
    /// rightmost rotor.
    pub fn rotor_position(&self, index: usize) -> (p: u8)
        requires
            (index as int) < self@.rotors.len(),
        ensures
            p == self@.rotors[index as int].position,
    {
        self.rotors[index].get_rotor_position()
    }

    /// Steps the rotors for one keystroke, before encipherment. All notch
    /// states are read from the positions as they stand at the call, then
    /// the stepping rule is applied to every rotor at once, which carries
    /// the historically faithful double-stepping anomaly with it.
    pub fn advance(&mut self)
        requires
            mech_wf(old(self)@),
        ensures
            mech_wf(final(self)@),
            mech_stepped(old(self)@, final(self)@),
    {
        let ghost pre = rotor_views(old(self).rotors@);
        let n = self.rotors.len();
        let mut flags: Vec<bool> = Vec::new();
        flags.push(true);
        for i in 1..(n - 1)
            invariant
                n == self.rotors@.len() >= 3,
                self == old(self),
                pre == rotor_views(self.rotors@),
                flags@.len() == i,
                forall|k: int| 0 <= k < i ==> flags@[k] == should_advance(pre, k),
        {
            let own = self.rotors[i].is_notch_positioned();
            let right = self.rotors[i - 1].is_notch_positioned();
            flags.push(own || right);
        }
        let left_trigger = self.rotors[n - 2].is_notch_positioned();
        flags.push(left_trigger);
        assert(flags@.len() == n);
        assert(forall|k: int| 0 <= k < n ==> flags@[k] == should_advance(pre, k));
        for i in 0..n
            invariant
                n == self.rotors@.len(),
                pre.len() == n,
                rotors_uniform(pre, self@.alphabet_size as int),
                flags@.len() == n,
                forall|k: int| 0 <= k < n ==> flags@[k] == should_advance(pre, k),
                self@.etw == old(self)@.etw,
                self@.reflector == old(self)@.reflector,
                self@.alphabet_size == old(self)@.alphabet_size,
                forall|k: int| 0 <= k < i
                    ==> rotor_views(self.rotors@)[k] == stepped_rotors(pre)[k],
                forall|k: int| i <= k < n ==> rotor_views(self.rotors@)[k] == pre[k],
        {
            let ghost prev = self.rotors@;
            if flags[i] {
                proof {
                    assert(rotor_views(prev)[i as int] == prev[i as int]@);
                    assert(prev[i as int]@ == pre[i as int]);
                    assert(rotor_wf(pre[i as int]));
                }
                let r = &mut self.rotors[i];
                r.advance();
            }
            proof {
                assert forall|k: int| 0 <= k < i + 1
                    implies rotor_views(self.rotors@)[k] == stepped_rotors(pre)[k] by {
                    assert(rotor_views(self.rotors@)[k] == self.rotors@[k]@);
                    if k < i {
                        assert(self.rotors@[k] == prev[k]);
                        assert(rotor_views(prev)[k] == prev[k]@);
                    } else {
                        if flags@[i as int] {
                            assert(self.rotors@[k]@ == rotor_advanced(prev[k]@));
                            assert(rotor_views(prev)[k] == prev[k]@);
                        } else {
                            assert(self.rotors@[k] == prev[k]);
                            assert(rotor_views(prev)[k] == prev[k]@);
                        }
                    }
                }
                assert forall|k: int| i + 1 <= k < n
                    implies rotor_views(self.rotors@)[k] == pre[k] by {
                    assert(self.rotors@[k] == prev[k]);
                    assert(rotor_views(self.rotors@)[k] == self.rotors@[k]@);
                    assert(rotor_views(prev)[k] == prev[k]@);
                }
            }
        }
        proof {
            assert(rotor_views(self.rotors@) =~= stepped_rotors(pre));
            assert forall|k: int| 0 <= k < n
                implies rotor_wf(#[trigger] stepped_rotors(pre)[k])
                    && stepped_rotors(pre)[k].wiring.len() == old(self)@.alphabet_size by {
                if should_advance(pre, k) {
                    lemma_mod_in_range(pre[k].position as int + 1, pre[k].wiring.len() as int);
                }
            }
        }
    }

    /// Sends one symbol through the full signal path, rejecting one at or
    /// past the alphabet size; a backward reading that finds no wired
    /// contact, possible only with a non-permutation wiring, also fails.
    pub fn translate(&self, input: u8) -> (res: Result<u8, EnigmaError>)
        requires
            mech_wf(self@),
        ensures
            (input as int) >= self@.alphabet_size
                ==> res == Err::<u8, EnigmaError>(EnigmaError::InputOutOfRange),
            (input as int) < self@.alphabet_size
                ==> (res is Ok <==> mech_translate_defined(self@, input as int)),
            (input as int) < self@.alphabet_size ==> (res matches Ok(r)
                ==> r as int == mech_translate(self@, input as int)
                    && (r as int) < self@.alphabet_size),
            (input as int) < self@.alphabet_size ==> (res is Err
                ==> res == Err::<u8, EnigmaError>(EnigmaError::MissingBackwardConnection)),
    {
        let n = self.alphabet_size;
        if input as usize >= n {
            return Err(EnigmaError::InputOutOfRange);
        }
        let ghost rv = self@.rotors;
        let ghost n_int = n as int;

        // entry wheel in
        let mut contact: u8 = match self.etw.translate_r_to_l(input) {
            Ok(c) => c,
            Err(_) => {
                proof {
                    assert(false);
                }
                return Err(EnigmaError::InputOutOfRange);
            },
        };
        let ghost start = rotor_rtl(self@.etw, input as int);

        // right to left through the stack
        let count = self.rotors.len();
        for i in 0..count
            invariant
                mech_wf(self@),
                n == self@.alphabet_size,
                n_int == n as int,
                rv == self@.rotors,
                count == rv.len(),
                (contact as int) < n_int,
                contact as int == mech_fwd(rv.subrange(0, i as int), n_int, start),
        {
            proof {
                assert(self.rotors@[i as int]@ == rv[i as int]);
                assert(rotor_wf(rv[i as int]) && rv[i as int].wiring.len() == n_int);
            }
            let pos = self.rotors[i].get_rotor_position();
            let shifted = ((contact as usize + pos as usize) % n) as u8;
            let through: u8 = match self.rotors[i].translate_r_to_l(shifted) {
                Ok(v) => v,
                Err(_) => {
                    proof {
                        assert(false);
                    }
                    return Err(EnigmaError::InputOutOfRange);
                },
            };
            let ghost before = contact as int;
            contact = ((through as usize + n - pos as usize) % n) as u8;
            proof {
                assert(contact as int == mech_step_fwd(rv[i as int], n_int, before));
                assert(rv.subrange(0, i + 1) =~= rv.subrange(0, i as int).push(rv[i as int]));
                lemma_mech_fwd_snoc(rv.subrange(0, i as int), rv[i as int], n_int, start);
            }
        }
        proof {
            assert(rv.subrange(0, count as int) =~= rv);
        }
        let ghost forwarded = mech_fwd(rv, n_int, start);

        // reflector
        contact = self.reflector.translate(contact);
        assert((contact as int) < n_int);
        let ghost reflected = wiring_fwd(self@.reflector, forwarded);

        // left to right through the stack
        let mut j = count;
        while j > 0
            invariant
                mech_wf(self@),
                n == self@.alphabet_size,
                n_int == n as int,
                rv == self@.rotors,
                count == rv.len(),
                j <= count,
                (input as int) < n_int,
                start == rotor_rtl(self@.etw, input as int),
                reflected == wiring_fwd(self@.reflector, mech_fwd(rv, n_int, start)),
                (contact as int) < n_int,
                mech_bwd_defined(rv.subrange(j as int, count as int), n_int, reflected),
                contact as int == mech_bwd(rv.subrange(j as int, count as int), n_int, reflected),
            decreases j,
        {
            j = j - 1;
            proof {
                assert(self.rotors@[j as int]@ == rv[j as int]);
                assert(rotor_wf(rv[j as int]) && rv[j as int].wiring.len() == n_int);
            }
            let pos = self.rotors[j].get_rotor_position();
            let shifted = ((contact as usize + pos as usize) % n) as u8;
            let ghost before = contact as int;
            match self.rotors[j].translate_l_to_r(shifted) {
                Ok(v) => {
                    contact = ((v as usize + n - pos as usize) % n) as u8;
                    proof {
                        assert(rv.subrange(j as int, count as int).drop_first()
                            =~= rv.subrange(j as int + 1, count as int));
                        assert(contact as int == mech_step_bwd(rv[j as int], n_int, before));
                    }
                },
                Err(_) => {
                    proof {
                        assert(rv.subrange(j as int, count as int).drop_first()
                            =~= rv.subrange(j as int + 1, count as int));
                        assert(!mech_bwd_defined(rv.subrange(j as int, count as int), n_int,
                            reflected));
                        if mech_bwd_defined(rv, n_int, reflected) {
                            lemma_mech_bwd_defined_suffix(rv, n_int, reflected, j as int);
                        }
                    }
                    return Err(EnigmaError::MissingBackwardConnection);
                },
            }
        }
        proof {
            assert(rv.subrange(0, count as int) =~= rv);
        }

        // entry wheel out
        match self.etw.translate_l_to_r(contact) {
            Ok(out) => Ok(out),
            Err(_) => Err(EnigmaError::MissingBackwardConnection),
        }
    }
}

} // verus!
