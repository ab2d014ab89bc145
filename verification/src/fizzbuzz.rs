//! The fizzbuzz node library's logic: the numeric family its nodes are
//! written against, the counter's sequence, the comparison and arithmetic
//! each instance chooses, the case selection that turns a count and its two
//! divisibility flags into the fizzbuzz text, and the compile-time checks
//! the node types declare.
//!
//! The numeric logic is written once, generic over [`Numeric`], and stamped
//! for each member of the base integer set.

use vstd::prelude::*;
use vstd::string::StringExecFns;
use crate::compile::CompiledNode;
use crate::literal::Scalar;
use crate::parameters::signed_decimal;
use crate::text::{has_name, same_text, views};

verus! {

/// The quotient integer division truncates to.
pub open spec fn truncated_quotient(x: int, d: int) -> int {
    if x == 0 {
        0
    } else if x > 0 && d > 0 {
        x / d
    } else if x < 0 && d < 0 {
        (-x) / (-d)
    } else if x < 0 {
        -((-x) / d)
    } else {
        -(x / (-d))
    }
}

/// The remainder beside the truncated quotient.
pub open spec fn truncated_remainder(x: int, d: int) -> int {
    x - d * truncated_quotient(x, d)
}

/// The remainder beside the truncated quotient, case by case as the
/// standard library computes it.
pub proof fn lemma_remainder(x: int, d: int)
    requires
        d != 0,
    ensures
        x >= 0 && d > 0 ==> truncated_remainder(x, d) == x % d,
        truncated_remainder(x, d) == if x == 0 {
            0
        } else if x > 0 && d > 0 {
            x % d
        } else if x < 0 && d < 0 {
            ((x * -1) % (d * -1)) * -1
        } else if x < 0 {
            ((x * -1) % d) * -1
        } else {
            x % (d * -1)
        },
{
    if x > 0 && d > 0 {
        vstd::arithmetic::div_mod::lemma_fundamental_div_mod(x, d);
        assert(truncated_quotient(x, d) == x / d);
    } else if x < 0 && d < 0 {
        let q = (-x) / (-d);
        let r0 = (-x) % (-d);
        vstd::arithmetic::div_mod::lemma_fundamental_div_mod(-x, -d);
        assert(-x == (-d) * q + r0);
        assert(truncated_quotient(x, d) == q);
        assert((-d) * q == -(d * q)) by (nonlinear_arith);
        assert(x * -1 == -x && d * -1 == -d);
        assert(truncated_remainder(x, d) == x - d * q);
        assert(truncated_remainder(x, d) == -r0);
        assert(((x * -1) % (d * -1)) * -1 == -r0);
    } else if x < 0 {
        let q = (-x) / d;
        let r0 = (-x) % d;
        vstd::arithmetic::div_mod::lemma_fundamental_div_mod(-x, d);
        assert(-x == d * q + r0);
        assert(truncated_quotient(x, d) == -q);
        assert(d * (-q) == -(d * q)) by (nonlinear_arith);
        assert(x * -1 == -x);
        assert(truncated_remainder(x, d) == x - d * (-q));
        assert(truncated_remainder(x, d) == -r0);
        assert(((x * -1) % d) * -1 == -r0);
    } else if x > 0 {
        let q = x / (-d);
        let r0 = x % (-d);
        vstd::arithmetic::div_mod::lemma_fundamental_div_mod(x, -d);
        assert(x == (-d) * q + r0);
        assert(truncated_quotient(x, d) == -q);
        assert(d * (-q) == (-d) * q) by (nonlinear_arith);
        assert(d * -1 == -d);
        assert(truncated_remainder(x, d) == x - d * (-q));
        assert(truncated_remainder(x, d) == r0);
        assert(x % (d * -1) == r0);
    } else {
        assert(truncated_quotient(x, d) == 0);
        assert(d * 0 == 0);
        assert(truncated_remainder(x, d) == 0);
        if d > 0 {
            vstd::arithmetic::div_mod::lemma_small_mod(0, d as nat);
        }
    }
}

/// The arithmetic and identity every member of the numeric family shares:
/// its value as an integer, the range it holds, and checked operations that
/// answer none where the member has no answer.
pub trait Numeric: Sized + Copy {
    /// The number a value of this member is.
    spec fn number(self) -> int;

    /// Whether the member holds the number.
    spec fn fits(v: int) -> bool;

    /// Every value's number is one the member holds.
    proof fn lemma_fits(self)
        ensures
            Self::fits(self.number()),
    ;

    /// The name of the data type this member is registered under.
    spec fn registered_name() -> Seq<char>;

    /// The data type reference this member is registered under.
    fn type_ref() -> (name: &'static str)
        ensures
            name@ == Self::registered_name(),
    ;

    /// The data type id this member's values carry.
    fn type_id() -> (id: u128);

    /// The member's zero.
    fn zero() -> (zero: Self)
        ensures
            zero.number() == 0,
    ;

    fn at_most(self, other: Self) -> (r: bool)
        ensures
            r == (self.number() <= other.number()),
    ;

    fn same(self, other: Self) -> (r: bool)
        ensures
            r == (self.number() == other.number()),
    ;

    /// The sum, or none when it falls outside the member.
    fn add_checked(self, other: Self) -> (r: Option<Self>)
        ensures
            match r {
                Some(n) => n.number() == self.number() + other.number(),
                None => !Self::fits(self.number() + other.number()),
            },
    ;

    /// The difference, or none when it falls outside the member.
    fn sub_checked(self, other: Self) -> (r: Option<Self>)
        ensures
            match r {
                Some(n) => n.number() == self.number() - other.number(),
                None => !Self::fits(self.number() - other.number()),
            },
    ;

    /// The product, or none when it falls outside the member.
    fn mul_checked(self, other: Self) -> (r: Option<Self>)
        ensures
            match r {
                Some(n) => n.number() == self.number() * other.number(),
                None => !Self::fits(self.number() * other.number()),
            },
    ;

    /// The truncated quotient, or none for a zero divisor or a quotient
    /// outside the member.
    fn div_checked(self, other: Self) -> (r: Option<Self>)
        ensures
            match r {
                Some(n) => other.number() != 0 && n.number() == truncated_quotient(self.number(), other.number()),
                None => other.number() == 0 || !Self::fits(truncated_quotient(self.number(), other.number())),
            },
    ;

    /// The remainder beside the truncated quotient, or none for a zero
    /// divisor or a quotient outside the member.
    fn rem_checked(self, other: Self) -> (r: Option<Self>)
        ensures
            match r {
                Some(n) => other.number() != 0 && n.number() == truncated_remainder(self.number(), other.number()),
                None => other.number() == 0 || !Self::fits(truncated_quotient(self.number(), other.number())),
            },
    ;

    /// The value as its decimal text.
    fn text(self) -> (t: String)
        ensures
            t@ == signed_decimal(self.number()),
    ;
}

impl Numeric for i8 {
    open spec fn number(self) -> int {
        self as int
    }

    open spec fn fits(v: int) -> bool {
        i8::MIN <= v <= i8::MAX
    }

    proof fn lemma_fits(self) {
    }

    open spec fn registered_name() -> Seq<char> {
        "i8"@
    }

    fn type_ref() -> (name: &'static str) {
        "i8"
    }

    fn type_id() -> (id: u128)
        ensures
            id == crate::scalars::I8,
    {
        crate::scalars::I8
    }

    fn zero() -> (zero: Self) {
        0
    }

    fn at_most(self, other: Self) -> (r: bool) {
        self <= other
    }

    fn same(self, other: Self) -> (r: bool) {
        self == other
    }

    fn add_checked(self, other: Self) -> (r: Option<Self>) {
        self.checked_add(other)
    }

    fn sub_checked(self, other: Self) -> (r: Option<Self>) {
        self.checked_sub(other)
    }

    fn mul_checked(self, other: Self) -> (r: Option<Self>) {
        self.checked_mul(other)
    }

    fn div_checked(self, other: Self) -> (r: Option<Self>) {
        self.checked_div(other)
    }

    fn rem_checked(self, other: Self) -> (r: Option<Self>) {
        proof {
            if other != 0 {
                lemma_remainder(self as int, other as int);
            }
        }
        self.checked_rem(other)
    }

    fn text(self) -> (t: String) {
        crate::parameters::signed_text(self as i64)
    }
}

impl Numeric for i16 {
    open spec fn number(self) -> int {
        self as int
    }

    open spec fn fits(v: int) -> bool {
        i16::MIN <= v <= i16::MAX
    }

    proof fn lemma_fits(self) {
    }

    open spec fn registered_name() -> Seq<char> {
        "i16"@
    }

    fn type_ref() -> (name: &'static str) {
        "i16"
    }

    fn type_id() -> (id: u128)
        ensures
            id == crate::scalars::I16,
    {
        crate::scalars::I16
    }

    fn zero() -> (zero: Self) {
        0
    }

    fn at_most(self, other: Self) -> (r: bool) {
        self <= other
    }

    fn same(self, other: Self) -> (r: bool) {
        self == other
    }

    fn add_checked(self, other: Self) -> (r: Option<Self>) {
        self.checked_add(other)
    }

    fn sub_checked(self, other: Self) -> (r: Option<Self>) {
        self.checked_sub(other)
    }

    fn mul_checked(self, other: Self) -> (r: Option<Self>) {
        self.checked_mul(other)
    }

    fn div_checked(self, other: Self) -> (r: Option<Self>) {
        self.checked_div(other)
    }

    fn rem_checked(self, other: Self) -> (r: Option<Self>) {
        proof {
            if other != 0 {
                lemma_remainder(self as int, other as int);
            }
        }
        self.checked_rem(other)
    }

    fn text(self) -> (t: String) {
        crate::parameters::signed_text(self as i64)
    }
}

impl Numeric for i32 {
    open spec fn number(self) -> int {
        self as int
    }

    open spec fn fits(v: int) -> bool {
        i32::MIN <= v <= i32::MAX
    }

    proof fn lemma_fits(self) {
    }

    open spec fn registered_name() -> Seq<char> {
        "i32"@
    }

    fn type_ref() -> (name: &'static str) {
        "i32"
    }

    fn type_id() -> (id: u128)
        ensures
            id == crate::scalars::I32,
    {
        crate::scalars::I32
    }

    fn zero() -> (zero: Self) {
        0
    }

    fn at_most(self, other: Self) -> (r: bool) {
        self <= other
    }

    fn same(self, other: Self) -> (r: bool) {
        self == other
    }

    fn add_checked(self, other: Self) -> (r: Option<Self>) {
        self.checked_add(other)
    }

    fn sub_checked(self, other: Self) -> (r: Option<Self>) {
        self.checked_sub(other)
    }

    fn mul_checked(self, other: Self) -> (r: Option<Self>) {
        self.checked_mul(other)
    }

    fn div_checked(self, other: Self) -> (r: Option<Self>) {
        self.checked_div(other)
    }

    fn rem_checked(self, other: Self) -> (r: Option<Self>) {
        proof {
            if other != 0 {
                lemma_remainder(self as int, other as int);
            }
        }
        self.checked_rem(other)
    }

    fn text(self) -> (t: String) {
        crate::parameters::signed_text(self as i64)
    }
}

impl Numeric for i64 {
    open spec fn number(self) -> int {
        self as int
    }

    open spec fn fits(v: int) -> bool {
        i64::MIN <= v <= i64::MAX
    }

    proof fn lemma_fits(self) {
    }

    open spec fn registered_name() -> Seq<char> {
        "i64"@
    }

    fn type_ref() -> (name: &'static str) {
        "i64"
    }

    fn type_id() -> (id: u128)
        ensures
            id == crate::scalars::I64,
    {
        crate::scalars::I64
    }

    fn zero() -> (zero: Self) {
        0
    }

    fn at_most(self, other: Self) -> (r: bool) {
        self <= other
    }

    fn same(self, other: Self) -> (r: bool) {
        self == other
    }

    fn add_checked(self, other: Self) -> (r: Option<Self>) {
        self.checked_add(other)
    }

    fn sub_checked(self, other: Self) -> (r: Option<Self>) {
        self.checked_sub(other)
    }

    fn mul_checked(self, other: Self) -> (r: Option<Self>) {
        self.checked_mul(other)
    }

    fn div_checked(self, other: Self) -> (r: Option<Self>) {
        self.checked_div(other)
    }

    fn rem_checked(self, other: Self) -> (r: Option<Self>) {
        proof {
            if other != 0 {
                lemma_remainder(self as int, other as int);
            }
        }
        self.checked_rem(other)
    }

    fn text(self) -> (t: String) {
        crate::parameters::signed_text(self as i64)
    }
}

impl Numeric for u8 {
    open spec fn number(self) -> int {
        self as int
    }

    open spec fn fits(v: int) -> bool {
        u8::MIN <= v <= u8::MAX
    }

    proof fn lemma_fits(self) {
    }

    open spec fn registered_name() -> Seq<char> {
        "u8"@
    }

    fn type_ref() -> (name: &'static str) {
        "u8"
    }

    fn type_id() -> (id: u128)
        ensures
            id == crate::scalars::U8,
    {
        crate::scalars::U8
    }

    fn zero() -> (zero: Self) {
        0
    }

    fn at_most(self, other: Self) -> (r: bool) {
        self <= other
    }

    fn same(self, other: Self) -> (r: bool) {
        self == other
    }

    fn add_checked(self, other: Self) -> (r: Option<Self>) {
        self.checked_add(other)
    }

    fn sub_checked(self, other: Self) -> (r: Option<Self>) {
        self.checked_sub(other)
    }

    fn mul_checked(self, other: Self) -> (r: Option<Self>) {
        self.checked_mul(other)
    }

    fn div_checked(self, other: Self) -> (r: Option<Self>) {
        self.checked_div(other)
    }

    fn rem_checked(self, other: Self) -> (r: Option<Self>) {
        proof {
            if other != 0 {
                lemma_remainder(self as int, other as int);
            }
        }
        self.checked_rem(other)
    }

    fn text(self) -> (t: String) {
        crate::text::decimal_text(self as u128)
    }
}

impl Numeric for u16 {
    open spec fn number(self) -> int {
        self as int
    }

    open spec fn fits(v: int) -> bool {
        u16::MIN <= v <= u16::MAX
    }

    proof fn lemma_fits(self) {
    }

    open spec fn registered_name() -> Seq<char> {
        "u16"@
    }

    fn type_ref() -> (name: &'static str) {
        "u16"
    }

    fn type_id() -> (id: u128)
        ensures
            id == crate::scalars::U16,
    {
        crate::scalars::U16
    }

    fn zero() -> (zero: Self) {
        0
    }

    fn at_most(self, other: Self) -> (r: bool) {
        self <= other
    }

    fn same(self, other: Self) -> (r: bool) {
        self == other
    }

    fn add_checked(self, other: Self) -> (r: Option<Self>) {
        self.checked_add(other)
    }

    fn sub_checked(self, other: Self) -> (r: Option<Self>) {
        self.checked_sub(other)
    }

    fn mul_checked(self, other: Self) -> (r: Option<Self>) {
        self.checked_mul(other)
    }

    fn div_checked(self, other: Self) -> (r: Option<Self>) {
        self.checked_div(other)
    }

    fn rem_checked(self, other: Self) -> (r: Option<Self>) {
        proof {
            if other != 0 {
                lemma_remainder(self as int, other as int);
            }
        }
        self.checked_rem(other)
    }

    fn text(self) -> (t: String) {
        crate::text::decimal_text(self as u128)
    }
}

impl Numeric for u32 {
    open spec fn number(self) -> int {
        self as int
    }

    open spec fn fits(v: int) -> bool {
        u32::MIN <= v <= u32::MAX
    }

    proof fn lemma_fits(self) {
    }

    open spec fn registered_name() -> Seq<char> {
        "u32"@
    }

    fn type_ref() -> (name: &'static str) {
        "u32"
    }

    fn type_id() -> (id: u128)
        ensures
            id == crate::scalars::U32,
    {
        crate::scalars::U32
    }

    fn zero() -> (zero: Self) {
        0
    }

    fn at_most(self, other: Self) -> (r: bool) {
        self <= other
    }

    fn same(self, other: Self) -> (r: bool) {
        self == other
    }

    fn add_checked(self, other: Self) -> (r: Option<Self>) {
        self.checked_add(other)
    }

    fn sub_checked(self, other: Self) -> (r: Option<Self>) {
        self.checked_sub(other)
    }

    fn mul_checked(self, other: Self) -> (r: Option<Self>) {
        self.checked_mul(other)
    }

    fn div_checked(self, other: Self) -> (r: Option<Self>) {
        self.checked_div(other)
    }

    fn rem_checked(self, other: Self) -> (r: Option<Self>) {
        proof {
            if other != 0 {
                lemma_remainder(self as int, other as int);
            }
        }
        self.checked_rem(other)
    }

    fn text(self) -> (t: String) {
        crate::text::decimal_text(self as u128)
    }
}

impl Numeric for u64 {
    open spec fn number(self) -> int {
        self as int
    }

    open spec fn fits(v: int) -> bool {
        u64::MIN <= v <= u64::MAX
    }

    proof fn lemma_fits(self) {
    }

    open spec fn registered_name() -> Seq<char> {
        "u64"@
    }

    fn type_ref() -> (name: &'static str) {
        "u64"
    }

    fn type_id() -> (id: u128)
        ensures
            id == crate::scalars::U64,
    {
        crate::scalars::U64
    }

    fn zero() -> (zero: Self) {
        0
    }

    fn at_most(self, other: Self) -> (r: bool) {
        self <= other
    }

    fn same(self, other: Self) -> (r: bool) {
        self == other
    }

    fn add_checked(self, other: Self) -> (r: Option<Self>) {
        self.checked_add(other)
    }

    fn sub_checked(self, other: Self) -> (r: Option<Self>) {
        self.checked_sub(other)
    }

    fn mul_checked(self, other: Self) -> (r: Option<Self>) {
        self.checked_mul(other)
    }

    fn div_checked(self, other: Self) -> (r: Option<Self>) {
        self.checked_div(other)
    }

    fn rem_checked(self, other: Self) -> (r: Option<Self>) {
        proof {
            if other != 0 {
                lemma_remainder(self as int, other as int);
            }
        }
        self.checked_rem(other)
    }

    fn text(self) -> (t: String) {
        crate::text::decimal_text(self as u128)
    }
}

/// Whether the accumulated `value` may still grow toward `stop` along
/// `step`: not passed in step's direction, stop included when the
/// accumulation lands exactly on it. A zero step never moves, so it never
/// passes a stop on either side — the callers reject it first.
pub fn sequence_continues<T: Numeric>(value: T, stop: T, step: T) -> (continues: bool)
    ensures
        continues == if step.number() <= 0 { value.number() >= stop.number() } else { value.number() <= stop.number() },
{
    if step.at_most(T::zero()) {
        stop.at_most(value)
    } else {
        value.at_most(stop)
    }
}

/// Whether a value has not passed stop in step's direction.
pub open spec fn within_stop(value: int, stop: int, step: int) -> bool {
    if step <= 0 { value >= stop } else { value <= stop }
}

/// The stop is a bound the sequence may reach, not one it stops short of: a
/// value equal to stop is within it whatever the step; along a rising step a
/// value is within exactly when it is at most stop, along a falling step
/// exactly when it is at least stop.
pub proof fn law_stop_included(value: int, stop: int, step: int)
    ensures
        within_stop(stop, stop, step),
        step > 0 ==> (within_stop(value, stop, step) <==> value <= stop),
        step < 0 ==> (within_stop(value, stop, step) <==> value >= stop),
{
}

/// Along a rising step from a start at or below stop, the accumulation after
/// `k` steps is within stop exactly for the first `(stop - start) / step + 1`
/// values: the last one lands on stop whenever the step divides the
/// distance.
pub proof fn law_counter_length(start: int, stop: int, step: int, k: nat)
    requires
        step > 0,
        start <= stop,
    ensures
        within_stop(start + k * step, stop, step) <==> k <= (stop - start) / step,
        (stop - start) % step == 0 ==> start + ((stop - start) / step) * step == stop,
{
    let d = stop - start;
    let q = d / step;
    vstd::arithmetic::div_mod::lemma_fundamental_div_mod(d, step);
    assert(0 <= d % step < step) by {
        vstd::arithmetic::div_mod::lemma_mod_pos_bound(d, step);
    }
    assert(step * q == q * step) by (nonlinear_arith);
    if k <= q {
        assert(k * step <= q * step) by (nonlinear_arith)
            requires
                k <= q,
                step > 0,
        ;
    } else {
        assert(k * step >= (q + 1) * step) by (nonlinear_arith)
            requires
                k >= q + 1,
                step > 0,
        ;
        assert((q + 1) * step == q * step + step) by (nonlinear_arith);
    }
}

/// The counter's sequence: start, then start+step, and so on while the
/// accumulation has not passed stop in step's direction, ending where the
/// arithmetic runs out of room.
pub struct Counter<T: Numeric> {
    upcoming: Option<T>,
    stop: T,
    step: T,
    start: Ghost<int>,
    emitted: Ghost<nat>,
}

impl<T: Numeric> Counter<T> {
    /// The counter's invariant: the value it would emit next is the start
    /// advanced by one step per value emitted.
    pub closed spec fn wf(&self) -> bool {
        &&& self.step.number() != 0
        &&& self.upcoming matches Some(v) ==> v.number() == self.start@ + self.emitted@ * self.step.number()
        &&& self.upcoming is None ==> {
            let n = self.start@ + self.emitted@ * self.step.number();
            !T::fits(n) || !within_stop(n, self.stop.number(), self.step.number())
        }
    }

    pub closed spec fn start_number(&self) -> int {
        self.start@
    }

    pub closed spec fn step_number(&self) -> int {
        self.step.number()
    }

    pub closed spec fn stop_number(&self) -> int {
        self.stop.number()
    }

    /// How many values the counter has emitted.
    pub closed spec fn count(&self) -> nat {
        self.emitted@
    }

    /// Start a counter, refusing a zero step: the sequence would never
    /// move.
    pub fn start(start: T, stop: T, step: T) -> (counter: Result<Counter<T>, String>)
        ensures
            match counter {
                Ok(c) => c.wf() && c.count() == 0 && c.start_number() == start.number()
                    && c.step_number() == step.number() && c.stop_number() == stop.number(),
                Err(message) => step.number() == 0
                    && message@ == "input `step` streamed a zero step — the sequence would never move"@,
            },
            counter is Err <==> step.number() == 0,
    {
        if step.same(T::zero()) {
            return Err("input `step` streamed a zero step — the sequence would never move".to_owned());
        }
        Ok(Counter { upcoming: Some(start), stop, step, start: Ghost(start.number()), emitted: Ghost(0) })
    }

    /// The next value of the sequence, or none once it has passed stop or
    /// run out of room. The k-th value emitted is the start advanced by k
    /// steps.
    pub fn next(&mut self) -> (value: Option<T>)
        requires
            old(self).wf(),
        ensures
            final(self).wf(),
            final(self).start_number() == old(self).start_number(),
            final(self).step_number() == old(self).step_number(),
            final(self).stop_number() == old(self).stop_number(),
            match value {
                Some(v) => {
                    &&& v.number() == old(self).start_number() + old(self).count() * old(self).step_number()
                    &&& (if old(self).step_number() <= 0 { v.number() >= old(self).stop_number() } else { v.number() <= old(self).stop_number() })
                    &&& final(self).count() == old(self).count() + 1
                },
                None => final(self).count() == old(self).count(),
            },
            value is Some <==> {
                let n = old(self).start_number() + old(self).count() * old(self).step_number();
                T::fits(n) && within_stop(n, old(self).stop_number(), old(self).step_number())
            },
            value is Some <==> {
                let n = old(self).start_number() + old(self).count() * old(self).step_number();
                T::fits(n) && if old(self).step_number() > 0 { n <= old(self).stop_number() } else { n >= old(self).stop_number() }
            },
    {
        match self.upcoming {
            Some(v) => {
                proof {
                    v.lemma_fits();
                }
                if sequence_continues(v, self.stop, self.step) {
                    let next = v.add_checked(self.step);
                    proof {
                        assert((self.emitted@ + 1) * self.step.number() == self.emitted@ * self.step.number() + self.step.number()) by (nonlinear_arith);
                    }
                    self.upcoming = next;
                    self.emitted = Ghost((self.emitted@ + 1) as nat);
                    Some(v)
                } else {
                    self.upcoming = None;
                    None
                }
            },
            None => None,
        }
    }
}

/// The comparison an instance's `cmp` choice names.
#[derive(Clone, Copy, PartialEq, Eq, Structural, Debug)]
pub enum Comparison {
    Equal,
    NotEqual,
    Less,
    LessOrEqual,
    Greater,
    GreaterOrEqual,
}

/// The comparison each declared `cmp` option names.
pub open spec fn comparison_named(cmp: Seq<char>) -> Option<Comparison> {
    if cmp == "equal"@ {
        Some(Comparison::Equal)
    } else if cmp == "not equal"@ {
        Some(Comparison::NotEqual)
    } else if cmp == "less"@ {
        Some(Comparison::Less)
    } else if cmp == "less or equal"@ {
        Some(Comparison::LessOrEqual)
    } else if cmp == "greater"@ {
        Some(Comparison::Greater)
    } else if cmp == "greater or equal"@ {
        Some(Comparison::GreaterOrEqual)
    } else {
        None
    }
}

/// The comparison a declared `cmp` option names. Compile refuses an option
/// outside the declaration, so there is no fallback to pick.
pub fn comparison(cmp: &str) -> (found: Comparison)
    requires
        comparison_named(cmp@) is Some,
    ensures
        Some(found) == comparison_named(cmp@),
{
    if same_text(cmp, "equal") {
        Comparison::Equal
    } else if same_text(cmp, "not equal") {
        Comparison::NotEqual
    } else if same_text(cmp, "less") {
        Comparison::Less
    } else if same_text(cmp, "less or equal") {
        Comparison::LessOrEqual
    } else if same_text(cmp, "greater") {
        Comparison::Greater
    } else {
        Comparison::GreaterOrEqual
    }
}

/// What a comparison says of two numbers.
pub open spec fn compares(comparison: Comparison, a: int, b: int) -> bool {
    match comparison {
        Comparison::Equal => a == b,
        Comparison::NotEqual => a != b,
        Comparison::Less => a < b,
        Comparison::LessOrEqual => a <= b,
        Comparison::Greater => a > b,
        Comparison::GreaterOrEqual => a >= b,
    }
}

impl Comparison {
    /// The comparison applied to `a` and `b`.
    pub fn apply<T: Numeric>(self, a: T, b: T) -> (result: bool)
        ensures
            result == compares(self, a.number(), b.number()),
            self == Comparison::Equal ==> (result <==> a.number() == b.number()),
            self == Comparison::NotEqual ==> (result <==> a.number() != b.number()),
            self == Comparison::Less ==> (result <==> a.number() < b.number()),
            self == Comparison::LessOrEqual ==> (result <==> a.number() <= b.number()),
            self == Comparison::Greater ==> (result <==> a.number() > b.number()),
            self == Comparison::GreaterOrEqual ==> (result <==> a.number() >= b.number()),
    {
        match self {
            Comparison::Equal => a.same(b),
            Comparison::NotEqual => !a.same(b),
            Comparison::Less => !b.at_most(a),
            Comparison::LessOrEqual => a.at_most(b),
            Comparison::Greater => !a.at_most(b),
            Comparison::GreaterOrEqual => b.at_most(a),
        }
    }
}

/// Each comparison holds exactly when the relation its name states holds of
/// the two numbers: `less or equal` holds of equal numbers and `less` does
/// not, `less or equal` is `less` or `equal`, `greater` is the refusal of
/// `less or equal`, and `greater or equal` is `less or equal` with the
/// operands swapped.
pub proof fn law_comparisons(a: int, b: int)
    ensures
        compares(Comparison::Equal, a, b) <==> a == b,
        compares(Comparison::NotEqual, a, b) <==> a != b,
        compares(Comparison::Less, a, b) <==> a < b,
        compares(Comparison::LessOrEqual, a, b) <==> a <= b,
        compares(Comparison::Greater, a, b) <==> a > b,
        compares(Comparison::GreaterOrEqual, a, b) <==> a >= b,
        compares(Comparison::LessOrEqual, a, a),
        compares(Comparison::GreaterOrEqual, a, a),
        !compares(Comparison::Less, a, a),
        !compares(Comparison::Greater, a, a),
        compares(Comparison::LessOrEqual, a, b) <==> (compares(Comparison::Less, a, b) || compares(Comparison::Equal, a, b)),
        compares(Comparison::Greater, a, b) <==> !compares(Comparison::LessOrEqual, a, b),
        compares(Comparison::GreaterOrEqual, a, b) <==> compares(Comparison::LessOrEqual, b, a),
        compares(Comparison::NotEqual, a, b) <==> !compares(Comparison::Equal, a, b),
{
}

/// Each declared `cmp` option names the comparison its words say, and no
/// other text names one.
pub proof fn law_comparison_names(cmp: Seq<char>)
    ensures
        comparison_named("equal"@) == Some(Comparison::Equal),
        comparison_named("not equal"@) == Some(Comparison::NotEqual),
        comparison_named("less"@) == Some(Comparison::Less),
        comparison_named("less or equal"@) == Some(Comparison::LessOrEqual),
        comparison_named("greater"@) == Some(Comparison::Greater),
        comparison_named("greater or equal"@) == Some(Comparison::GreaterOrEqual),
        comparison_named(cmp) is Some <==> (cmp == "equal"@ || cmp == "not equal"@ || cmp == "less"@
            || cmp == "less or equal"@ || cmp == "greater"@ || cmp == "greater or equal"@),
{
    reveal_strlit("equal");
    reveal_strlit("not equal");
    reveal_strlit("less");
    reveal_strlit("less or equal");
    reveal_strlit("greater");
    reveal_strlit("greater or equal");
    assert("equal"@.len() == 5 && "not equal"@.len() == 9 && "less"@.len() == 4);
    assert("less or equal"@.len() == 13 && "greater"@.len() == 7 && "greater or equal"@.len() == 16);
}

/// The arithmetic an instance's `op` choice names.
#[derive(Clone, Copy, PartialEq, Eq, Structural, Debug)]
pub enum Operation {
    Add,
    Subtract,
    Multiply,
    Divide,
    Modulo,
}

/// The arithmetic each declared `op` option names.
pub open spec fn operation_named(op: Seq<char>) -> Option<Operation> {
    if op == "add"@ {
        Some(Operation::Add)
    } else if op == "subtract"@ {
        Some(Operation::Subtract)
    } else if op == "multiply"@ {
        Some(Operation::Multiply)
    } else if op == "divide"@ {
        Some(Operation::Divide)
    } else if op == "modulo"@ {
        Some(Operation::Modulo)
    } else {
        None
    }
}

/// The arithmetic a declared `op` option names, in its checked form.
pub fn arithmetic(op: &str) -> (found: Operation)
    requires
        operation_named(op@) is Some,
    ensures
        Some(found) == operation_named(op@),
{
    if same_text(op, "add") {
        Operation::Add
    } else if same_text(op, "subtract") {
        Operation::Subtract
    } else if same_text(op, "multiply") {
        Operation::Multiply
    } else if same_text(op, "divide") {
        Operation::Divide
    } else {
        Operation::Modulo
    }
}

/// The number an operation answers for two numbers, where it answers one.
pub open spec fn answer(operation: Operation, a: int, b: int) -> Option<int> {
    match operation {
        Operation::Add => Some(a + b),
        Operation::Subtract => Some(a - b),
        Operation::Multiply => Some(a * b),
        Operation::Divide => if b == 0 { None } else { Some(truncated_quotient(a, b)) },
        Operation::Modulo => if b == 0 { None } else { Some(truncated_remainder(a, b)) },
    }
}

impl Operation {
    /// The operation applied to `a` and `b`: none where the member has no
    /// answer — a zero divisor, or a result outside the type — never a
    /// wrapped one.
    pub fn apply<T: Numeric>(self, a: T, b: T) -> (result: Option<T>)
        ensures
            match result {
                Some(n) => answer(self, a.number(), b.number()) == Some(n.number()),
                None => match answer(self, a.number(), b.number()) {
                    Some(v) => !T::fits(v) || (self == Operation::Modulo && !T::fits(truncated_quotient(a.number(), b.number()))),
                    None => true,
                },
            },
            self == Operation::Add ==> match result {
                Some(n) => n.number() == a.number() + b.number(),
                None => !T::fits(a.number() + b.number()),
            },
            self == Operation::Subtract ==> match result {
                Some(n) => n.number() == a.number() - b.number(),
                None => !T::fits(a.number() - b.number()),
            },
            self == Operation::Multiply ==> match result {
                Some(n) => n.number() == a.number() * b.number(),
                None => !T::fits(a.number() * b.number()),
            },
            self == Operation::Divide ==> match result {
                Some(n) => b.number() != 0 && n.number() == truncated_quotient(a.number(), b.number()),
                None => b.number() == 0 || !T::fits(truncated_quotient(a.number(), b.number())),
            },
            self == Operation::Modulo ==> match result {
                Some(n) => b.number() != 0 && n.number() == truncated_remainder(a.number(), b.number()),
                None => b.number() == 0 || !T::fits(truncated_quotient(a.number(), b.number())),
            },
    {
        match self {
            Operation::Add => a.add_checked(b),
            Operation::Subtract => a.sub_checked(b),
            Operation::Multiply => a.mul_checked(b),
            Operation::Divide => a.div_checked(b),
            Operation::Modulo => a.rem_checked(b),
        }
    }
}

/// Each arithmetic option answers the number its name states, the first
/// operand on the left: `subtract` answers a - b and so undoes `add`, `add`
/// and `multiply` do not care for the order, and `divide` and `modulo`
/// answer none exactly for a zero divisor. Otherwise their answers q and r
/// are truncated division's: q * b + r == a, r is smaller than b in size and
/// never of the other sign than a.
pub proof fn law_operations(a: int, b: int)
    ensures
        answer(Operation::Add, a, b) == Some(a + b),
        answer(Operation::Subtract, a, b) == Some(a - b),
        answer(Operation::Multiply, a, b) == Some(a * b),
        answer(Operation::Subtract, a + b, b) == Some(a),
        answer(Operation::Add, a, b) == answer(Operation::Add, b, a),
        answer(Operation::Multiply, a, b) == answer(Operation::Multiply, b, a),
        answer(Operation::Divide, a, b) is None <==> b == 0,
        answer(Operation::Modulo, a, b) is None <==> b == 0,
        b != 0 ==> {
            let q = answer(Operation::Divide, a, b).unwrap();
            let r = answer(Operation::Modulo, a, b).unwrap();
            &&& q * b + r == a
            &&& (b > 0 ==> -b < r < b)
            &&& (b < 0 ==> b < r < -b)
            &&& (a >= 0 ==> r >= 0)
            &&& (a <= 0 ==> r <= 0)
        },
{
    assert(a * b == b * a) by (nonlinear_arith);
    if b != 0 {
        let q = truncated_quotient(a, b);
        assert(b * q == q * b) by (nonlinear_arith);
        lemma_remainder(a, b);
        if a > 0 && b > 0 {
            vstd::arithmetic::div_mod::lemma_mod_pos_bound(a, b);
        } else if a < 0 && b < 0 {
            vstd::arithmetic::div_mod::lemma_mod_pos_bound(a * -1, b * -1);
        } else if a < 0 {
            vstd::arithmetic::div_mod::lemma_mod_pos_bound(a * -1, b);
        } else if a > 0 {
            vstd::arithmetic::div_mod::lemma_mod_pos_bound(a, b * -1);
        }
    }
}

/// Each declared `op` option names the arithmetic its word says, and no
/// other text names one.
pub proof fn law_operation_names(op: Seq<char>)
    ensures
        operation_named("add"@) == Some(Operation::Add),
        operation_named("subtract"@) == Some(Operation::Subtract),
        operation_named("multiply"@) == Some(Operation::Multiply),
        operation_named("divide"@) == Some(Operation::Divide),
        operation_named("modulo"@) == Some(Operation::Modulo),
        operation_named(op) is Some <==> (op == "add"@ || op == "subtract"@ || op == "multiply"@
            || op == "divide"@ || op == "modulo"@),
{
    reveal_strlit("add");
    reveal_strlit("subtract");
    reveal_strlit("multiply");
    reveal_strlit("divide");
    reveal_strlit("modulo");
    assert("subtract"@[0] != "multiply"@[0]);
    assert("add"@.len() == 3 && "subtract"@.len() == 8 && "multiply"@.len() == 8);
    assert("divide"@.len() == 6 && "modulo"@.len() == 6);
    assert("divide"@[0] != "modulo"@[0]);
}

/// An arithmetic with no answer, as the run's failure: the operation, its
/// operands, the member they ran over, and which of the two natural ends it
/// met.
pub fn no_result<T: Numeric>(op: &str, a: T, b: T) -> (message: String)
    ensures
        message@ == "`"@ + op@ + "` of "@ + signed_decimal(a.number()) + " and "@ + signed_decimal(b.number())
            + " over "@ + T::registered_name() + ": "@
            + if b.number() == 0 { "the divisor is zero"@ } else { "the result is outside the type"@ },
{
    let end = if b.same(T::zero()) { "the divisor is zero" } else { "the result is outside the type" };
    let mut message = "`".to_owned();
    message.append(op);
    message.append("` of ");
    let left = a.text();
    message.append(left.as_str());
    message.append(" and ");
    let right = b.text();
    message.append(right.as_str());
    message.append(" over ");
    message.append(T::type_ref());
    message.append(": ");
    message.append(end);
    message
}

/// The fizzbuzz text of one count.
pub open spec fn fizzbuzz_text(count: int, fizz: bool, buzz: bool) -> Seq<char> {
    if fizz && buzz {
        "FizzBuzz"@
    } else if fizz {
        "Fizz"@
    } else if buzz {
        "Buzz"@
    } else {
        signed_decimal(count)
    }
}

/// The text one count turns into: `FizzBuzz`, `Fizz`, `Buzz`, or the count
/// itself.
pub fn case_text<T: Numeric>(count: T, fizz: bool, buzz: bool) -> (text: String)
    ensures
        text@ == fizzbuzz_text(count.number(), fizz, buzz),
        fizz && buzz ==> text@ == "FizzBuzz"@,
        fizz && !buzz ==> text@ == "Fizz"@,
        !fizz && buzz ==> text@ == "Buzz"@,
        !fizz && !buzz ==> text@ == signed_decimal(count.number()),
{
    if fizz && buzz {
        "FizzBuzz".to_owned()
    } else if fizz {
        "Fizz".to_owned()
    } else if buzz {
        "Buzz".to_owned()
    } else {
        count.text()
    }
}

/// The text of a count says which of its two flags hold: both give
/// `FizzBuzz`, fizz alone `Fizz`, buzz alone `Buzz`, and neither the
/// count's own decimal text.
pub proof fn law_fizzbuzz_text(count: int, fizz: bool, buzz: bool)
    ensures
        fizz && buzz ==> fizzbuzz_text(count, fizz, buzz) == "FizzBuzz"@,
        fizz && !buzz ==> fizzbuzz_text(count, fizz, buzz) == "Fizz"@,
        !fizz && buzz ==> fizzbuzz_text(count, fizz, buzz) == "Buzz"@,
        !fizz && !buzz ==> fizzbuzz_text(count, fizz, buzz) == signed_decimal(count),
{
}

/// The numbers of a sequence of values.
pub open spec fn numbers<T: Numeric>(values: Seq<T>) -> Seq<int> {
    values.map_values(|c: T| c.number())
}

/// The least of three counts.
pub open spec fn least(a: nat, b: nat, c: nat) -> nat {
    if a <= b && a <= c { a } else if b <= c { b } else { c }
}

/// One arrival at the case selection: a count, a fizz flag, a buzz flag.
pub enum CaseArrival<T> {
    Count(T),
    Fizz(bool),
    Buzz(bool),
}

/// The case selection's alignment: its three inputs each arrive one value
/// per count, in count order, so the node buffers each stream and, the
/// moment all three hold a value, pairs their fronts.
pub struct CaseSelection<T: Numeric> {
    counts: Vec<T>,
    fizz: Vec<bool>,
    buzz: Vec<bool>,
    seen_counts: Ghost<Seq<int>>,
    seen_fizz: Ghost<Seq<bool>>,
    seen_buzz: Ghost<Seq<bool>>,
    paired: Ghost<nat>,
}

impl<T: Numeric> CaseSelection<T> {
    /// The buffers hold what arrived beyond the pairs made, and one of them
    /// is always empty: a pairing is made the moment all three can.
    pub closed spec fn wf(&self) -> bool {
        &&& self.paired@ <= self.seen_counts@.len()
        &&& self.paired@ <= self.seen_fizz@.len()
        &&& self.paired@ <= self.seen_buzz@.len()
        &&& numbers(self.counts@) == self.seen_counts@.skip(self.paired@ as int)
        &&& self.fizz@ == self.seen_fizz@.skip(self.paired@ as int)
        &&& self.buzz@ == self.seen_buzz@.skip(self.paired@ as int)
        &&& (self.counts@.len() == 0 || self.fizz@.len() == 0 || self.buzz@.len() == 0)
    }

    /// The counts that have arrived, in order.
    pub closed spec fn counts_seen(&self) -> Seq<int> {
        self.seen_counts@
    }

    /// The fizz flags that have arrived, in order.
    pub closed spec fn fizz_seen(&self) -> Seq<bool> {
        self.seen_fizz@
    }

    /// The buzz flags that have arrived, in order.
    pub closed spec fn buzz_seen(&self) -> Seq<bool> {
        self.seen_buzz@
    }

    /// How many texts the selection has emitted.
    pub closed spec fn emitted(&self) -> nat {
        self.paired@
    }

    /// A well-formed selection has emitted one text for each count whose
    /// fizz and buzz flags have also arrived, and no more.
    pub proof fn lemma_emitted(&self)
        requires
            self.wf(),
        ensures
            self.emitted() == least(self.counts_seen().len(), self.fizz_seen().len(), self.buzz_seen().len()),
    {
        assert(self.counts@.len() == numbers(self.counts@).len());
    }

    pub fn new() -> (selection: CaseSelection<T>)
        ensures
            selection.wf(),
            selection.emitted() == 0,
            selection.counts_seen().len() == 0,
            selection.fizz_seen().len() == 0,
            selection.buzz_seen().len() == 0,
    {
        let selection = CaseSelection {
            counts: Vec::new(),
            fizz: Vec::new(),
            buzz: Vec::new(),
            seen_counts: Ghost(Seq::empty()),
            seen_fizz: Ghost(Seq::empty()),
            seen_buzz: Ghost(Seq::empty()),
            paired: Ghost(0),
        };
        assert(numbers(selection.counts@) =~= Seq::<int>::empty());
        assert(selection.seen_counts@.skip(0) =~= Seq::<int>::empty());
        assert(selection.seen_fizz@.skip(0) =~= Seq::<bool>::empty());
        assert(selection.seen_buzz@.skip(0) =~= Seq::<bool>::empty());
        assert(selection.fizz@ =~= Seq::<bool>::empty());
        assert(selection.buzz@ =~= Seq::<bool>::empty());
        selection
    }

    /// Take one arrival in; when all three streams then hold a value, pair
    /// their fronts and emit that count's text. The k-th text emitted pairs
    /// the k-th arrival of each stream.
    pub fn arrive(&mut self, arrival: CaseArrival<T>) -> (text: Option<String>)
        requires
            old(self).wf(),
        ensures
            final(self).wf(),
            final(self).counts_seen() == match arrival {
                CaseArrival::Count(c) => old(self).counts_seen().push(c.number()),
                _ => old(self).counts_seen(),
            },
            final(self).fizz_seen() == match arrival {
                CaseArrival::Fizz(f) => old(self).fizz_seen().push(f),
                _ => old(self).fizz_seen(),
            },
            final(self).buzz_seen() == match arrival {
                CaseArrival::Buzz(b) => old(self).buzz_seen().push(b),
                _ => old(self).buzz_seen(),
            },
            match text {
                Some(t) => {
                    let k = old(self).emitted() as int;
                    &&& final(self).emitted() == old(self).emitted() + 1
                    &&& t@ == fizzbuzz_text(final(self).counts_seen()[k], final(self).fizz_seen()[k], final(self).buzz_seen()[k])
                },
                None => final(self).emitted() == old(self).emitted(),
            },
            final(self).emitted() == least(final(self).counts_seen().len(), final(self).fizz_seen().len(), final(self).buzz_seen().len()),
            text is Some <==> {
                &&& old(self).emitted() < final(self).counts_seen().len()
                &&& old(self).emitted() < final(self).fizz_seen().len()
                &&& old(self).emitted() < final(self).buzz_seen().len()
            },
    {
        proof {
            old(self).lemma_emitted();
        }
        match arrival {
            CaseArrival::Count(c) => {
                let ghost before = self.counts@;
                self.counts.push(c);
                self.seen_counts = Ghost(self.seen_counts@.push(c.number()));
                proof {
                    assert(numbers(self.counts@) =~= numbers(before).push(c.number()));
                    assert(self.seen_counts@.skip(self.paired@ as int) =~= old(self).seen_counts@.skip(self.paired@ as int).push(c.number()));
                }
            },
            CaseArrival::Fizz(f) => {
                self.fizz.push(f);
                self.seen_fizz = Ghost(self.seen_fizz@.push(f));
                assert(self.seen_fizz@.skip(self.paired@ as int) =~= old(self).seen_fizz@.skip(self.paired@ as int).push(f));
            },
            CaseArrival::Buzz(b) => {
                self.buzz.push(b);
                self.seen_buzz = Ghost(self.seen_buzz@.push(b));
                assert(self.seen_buzz@.skip(self.paired@ as int) =~= old(self).seen_buzz@.skip(self.paired@ as int).push(b));
            },
        }
        if self.counts.len() > 0 && self.fizz.len() > 0 && self.buzz.len() > 0 {
            let ghost k = self.paired@ as int;
            let ghost counts_before = self.counts@;
            let ghost fizz_before = self.fizz@;
            let ghost buzz_before = self.buzz@;
            let count = self.counts.remove(0);
            let fizz = self.fizz.remove(0);
            let buzz = self.buzz.remove(0);
            proof {
                assert(numbers(counts_before) == self.seen_counts@.skip(k));
                assert(counts_before.len() > 0);
                assert(self.seen_counts@.skip(k).len() == counts_before.len());
                assert(numbers(counts_before)[0] == self.seen_counts@.skip(k)[0]);
                assert(self.seen_counts@.skip(k)[0] == self.seen_counts@[k]);
                assert(fizz_before[0] == self.seen_fizz@[k]);
                assert(buzz_before[0] == self.seen_buzz@[k]);
                assert(self.counts@ =~= counts_before.subrange(1, counts_before.len() as int));
                assert forall|j: int| 0 <= j < self.counts@.len() implies
                    #[trigger] numbers(self.counts@)[j] == self.seen_counts@.skip(k + 1)[j] by {
                    assert(self.counts@[j] == counts_before[j + 1]);
                    assert(numbers(counts_before)[j + 1] == self.seen_counts@.skip(k)[j + 1]);
                }
                assert(numbers(self.counts@) =~= self.seen_counts@.skip(k + 1));
                assert(self.fizz@ =~= self.seen_fizz@.skip(k + 1));
                assert(self.buzz@ =~= self.seen_buzz@.skip(k + 1));
            }
            self.paired = Ghost((self.paired@ + 1) as nat);
            proof {
                self.lemma_emitted();
            }
            Some(case_text(count, fizz, buzz))
        } else {
            proof {
                self.lemma_emitted();
            }
            None
        }
    }
}

/// A compiled node's parameters hold a value under `name`.
pub open spec fn holds_parameter(node: CompiledNode, name: Seq<char>) -> bool {
    exists|i: int| 0 <= i < node.parameters@.len() && (#[trigger] node.parameters@[i]).0@ == name
}

fn has_compiled_parameter(node: &CompiledNode, name: &str) -> (found: bool)
    ensures
        found == holds_parameter(*node, name@),
{
    let mut i: usize = 0;
    while i < node.parameters.len()
        invariant
            i <= node.parameters.len(),
            forall|j: int| 0 <= j < i ==> (#[trigger] node.parameters@[j]).0@ != name@,
        decreases node.parameters.len() - i,
    {
        if same_text(node.parameters[i].0.as_str(), name) {
            return true;
        }
        i = i + 1;
    }
    false
}

pub open spec fn uncarried_message(name: Seq<char>) -> Seq<char> {
    "input `"@ + name + "` holds no parameter value and no connection feeds it — the node would never fire"@
}

/// The inputs of `names`, in order, that neither a parameter nor a
/// connection carries.
pub open spec fn uncarried(node: CompiledNode, names: Seq<&str>) -> Seq<Seq<char>>
    decreases names.len(),
{
    if names.len() == 0 {
        Seq::empty()
    } else {
        let rest = uncarried(node, names.drop_last());
        let name = names.last()@;
        if !holds_parameter(node, name) && !has_name(node.fed@, name) { rest.push(name) } else { rest }
    }
}

/// An input is reported as uncarried exactly when it is one of the inputs
/// checked and neither a parameter value nor a connection carries it: an
/// input with a parameter, or one a connection feeds, is never reported.
pub proof fn law_uncarried(node: CompiledNode, names: Seq<&str>, name: Seq<char>)
    ensures
        uncarried(node, names).contains(name) <==> {
            &&& exists|i: int| 0 <= i < names.len() && (#[trigger] names[i])@ == name
            &&& !holds_parameter(node, name)
            &&& !has_name(node.fed@, name)
        },
    decreases names.len(),
{
    if names.len() > 0 {
        let rest = names.drop_last();
        law_uncarried(node, rest, name);
        let last = names.last()@;
        if exists|i: int| 0 <= i < names.len() && (#[trigger] names[i])@ == name {
            let i = choose|i: int| 0 <= i < names.len() && (#[trigger] names[i])@ == name;
            if i < names.len() - 1 {
                assert(rest[i]@ == name);
            } else {
                assert(last == name);
            }
        }
        if exists|i: int| 0 <= i < rest.len() && (#[trigger] rest[i])@ == name {
            let i = choose|i: int| 0 <= i < rest.len() && (#[trigger] rest[i])@ == name;
            assert(names[i]@ == name);
        }
        if !holds_parameter(node, last) && !has_name(node.fed@, last) {
            assert(uncarried(node, names) == uncarried(node, rest).push(last));
            assert(uncarried(node, rest).push(last)[uncarried(node, rest).len() as int] == last);
            if uncarried(node, rest).contains(name) {
                let j = choose|j: int| 0 <= j < uncarried(node, rest).len() && uncarried(node, rest)[j] == name;
                assert(uncarried(node, names)[j] == name);
            }
            if uncarried(node, names).contains(name) && name != last {
                let j = choose|j: int| 0 <= j < uncarried(node, names).len() && uncarried(node, names)[j] == name;
                assert(uncarried(node, rest)[j] == name);
            }
        } else {
            assert(names[names.len() - 1]@ == last);
        }
    }
}

/// The compile-time form of an input the behaviour reads but nothing
/// carries: the node would wait on an empty stream without end.
pub fn carried_check(compiled: &CompiledNode, names: &Vec<&str>) -> (errors: Vec<String>)
    ensures
        errors@.len() == uncarried(*compiled, names@).len(),
        forall|i: int| 0 <= i < errors@.len() ==> (#[trigger] errors@[i])@ == uncarried_message(uncarried(*compiled, names@)[i]),
{
    let mut errors: Vec<String> = Vec::new();
    let mut k: usize = 0;
    while k < names.len()
        invariant
            k <= names.len(),
            errors@.len() == uncarried(*compiled, names@.subrange(0, k as int)).len(),
            forall|i: int| 0 <= i < errors@.len() ==> (#[trigger] errors@[i])@ == uncarried_message(uncarried(*compiled, names@.subrange(0, k as int))[i]),
        decreases names.len() - k,
    {
        let name = names[k];
        proof {
            assert(names@.subrange(0, k + 1).drop_last() =~= names@.subrange(0, k as int));
        }
        if !has_compiled_parameter(compiled, name) && !crate::text::contains_name(&compiled.fed, name) {
            let mut message = "input `".to_owned();
            message.append(name);
            message.append("` holds no parameter value and no connection feeds it — the node would never fire");
            errors.push(message);
        }
        k = k + 1;
    }
    assert(names@.subrange(0, names.len() as int) =~= names@);
    errors
}

/// Whether a scalar is a numeric zero: an integer zero, or a float equal to
/// zero, either sign.
pub open spec fn numeric_zero(value: Scalar) -> bool {
    match value {
        Scalar::I8(v) => v == 0,
        Scalar::I16(v) => v == 0,
        Scalar::I32(v) => v == 0,
        Scalar::I64(v) => v == 0,
        Scalar::U8(v) => v == 0,
        Scalar::U16(v) => v == 0,
        Scalar::U32(v) => v == 0,
        Scalar::U64(v) => v == 0,
        Scalar::F32(bits) => bits & 0x7fff_ffffu32 == 0,
        Scalar::F64(bits) => bits & 0x7fff_ffff_ffff_ffffu64 == 0,
        _ => false,
    }
}

fn is_zero(value: &Scalar) -> (zero: bool)
    ensures
        zero == numeric_zero(*value),
{
    match value {
        Scalar::I8(v) => *v == 0,
        Scalar::I16(v) => *v == 0,
        Scalar::I32(v) => *v == 0,
        Scalar::I64(v) => *v == 0,
        Scalar::U8(v) => *v == 0,
        Scalar::U16(v) => *v == 0,
        Scalar::U32(v) => *v == 0,
        Scalar::U64(v) => *v == 0,
        Scalar::F32(bits) => *bits & 0x7fff_ffffu32 == 0,
        Scalar::F64(bits) => *bits & 0x7fff_ffff_ffff_ffffu64 == 0,
        _ => false,
    }
}

/// The compile-time form of the streamed zero step: a `step` parameter of
/// zero is rejected before the run.
pub fn counter_step_check(compiled: &CompiledNode) -> (errors: Vec<String>)
    ensures
        errors@.len() <= 1,
        errors@.len() == 1 <==> exists|i: int| 0 <= i < compiled.parameters@.len()
            && (#[trigger] compiled.parameters@[i]).0@ == "step"@ && numeric_zero(compiled.parameters@[i].1.value)
            && forall|j: int| 0 <= j < i ==> compiled.parameters@[j].0@ != "step"@,
        forall|i: int| 0 <= i < errors@.len() ==> (#[trigger] errors@[i])@ == "input `step` holds a zero parameter — the sequence would never move"@,
{
    let mut errors: Vec<String> = Vec::new();
    let mut i: usize = 0;
    while i < compiled.parameters.len()
        invariant
            i <= compiled.parameters.len(),
            errors@.len() == 0,
            forall|j: int| 0 <= j < i ==> compiled.parameters@[j].0@ != "step"@,
        decreases compiled.parameters.len() - i,
    {
        if same_text(compiled.parameters[i].0.as_str(), "step") {
            if is_zero(&compiled.parameters[i].1.value) {
                errors.push("input `step` holds a zero parameter — the sequence would never move".to_owned());
                assert(compiled.parameters@[i as int].0@ == "step"@ && numeric_zero(compiled.parameters@[i as int].1.value));
            } else {
                assert forall|m: int| 0 <= m < compiled.parameters@.len() && (#[trigger] compiled.parameters@[m]).0@ == "step"@
                    && numeric_zero(compiled.parameters@[m].1.value) implies !(forall|j: int| 0 <= j < m ==> compiled.parameters@[j].0@ != "step"@) by {
                    if m > i {
                        assert(compiled.parameters@[i as int].0@ == "step"@);
                    }
                }
            }
            return errors;
        }
        i = i + 1;
    }
    errors
}

/// Whether a compiled node's family `family` resolved.
pub open spec fn family_of(compiled: CompiledNode, family: Seq<char>) -> bool {
    exists|i: int| 0 <= i < compiled.families@.len() && (#[trigger] compiled.families@[i]).0@ == family
}

fn family_resolved(compiled: &CompiledNode, family: &str) -> (found: bool)
    ensures
        found == family_of(*compiled, family@),
{
    let mut i: usize = 0;
    while i < compiled.families.len()
        invariant
            i <= compiled.families.len(),
            forall|j: int| 0 <= j < i ==> (#[trigger] compiled.families@[j]).0@ != family@,
        decreases compiled.families.len() - i,
    {
        if same_text(compiled.families[i].0.as_str(), family) {
            return true;
        }
        i = i + 1;
    }
    false
}

fn append_all(errors: &mut Vec<String>, more: Vec<String>)
    ensures
        final(errors)@ == old(errors)@ + more@,
{
    let mut i: usize = 0;
    let ghost start = errors@;
    while i < more.len()
        invariant
            i <= more.len(),
            errors@ == start + more@.subrange(0, i as int),
        decreases more.len() - i,
    {
        errors.push(more[i].clone());
        assert(errors@ =~= start + more@.subrange(0, i + 1));
        i = i + 1;
    }
    assert(more@.subrange(0, more.len() as int) =~= more@);
}

/// The messages of the inputs of `names` that nothing carries, in order.
pub open spec fn uncarried_errors(node: CompiledNode, names: Seq<&str>) -> Seq<Seq<char>> {
    uncarried(node, names).map_values(|name: Seq<char>| uncarried_message(name))
}

/// Whether the first `step` parameter of a compiled node holds a zero.
pub open spec fn zero_step(compiled: CompiledNode) -> bool {
    exists|i: int| 0 <= i < compiled.parameters@.len()
        && (#[trigger] compiled.parameters@[i]).0@ == "step"@ && numeric_zero(compiled.parameters@[i].1.value)
        && forall|j: int| 0 <= j < i ==> compiled.parameters@[j].0@ != "step"@
}

/// The counter's check, as messages: with its family resolved, each input
/// nothing carries, then a zero step; with the family unresolved, none —
/// the family reported its own error.
pub open spec fn counter_errors(compiled: CompiledNode) -> Seq<Seq<char>> {
    if family_of(compiled, "numeric"@) {
        uncarried_errors(compiled, seq!["start", "stop", "step"])
            + if zero_step(compiled) {
                seq!["input `step` holds a zero parameter — the sequence would never move"@]
            } else {
                Seq::empty()
            }
    } else {
        Seq::empty()
    }
}

proof fn lemma_checked(errors: Seq<String>, node: CompiledNode, names: Seq<&str>)
    requires
        errors.len() == uncarried(node, names).len(),
        forall|i: int| 0 <= i < errors.len() ==> (#[trigger] errors[i])@ == uncarried_message(uncarried(node, names)[i]),
    ensures
        views(errors) == uncarried_errors(node, names),
{
    assert(views(errors) =~= uncarried_errors(node, names));
}

/// The counter's checks: every input carried, and no zero step. A counter
/// whose family failed to compile reported its own error, so it takes no
/// further check.
pub fn counter_check(compiled: &CompiledNode) -> (errors: Vec<String>)
    ensures
        views(errors@) == counter_errors(*compiled),
{
    if family_resolved(compiled, "numeric") {
        let names = vec!["start", "stop", "step"];
        let mut errors = carried_check(compiled, &names);
        proof {
            lemma_checked(errors@, *compiled, names@);
            assert(names@ =~= seq!["start", "stop", "step"]);
        }
        let ghost carried_part = errors@;
        let step = counter_step_check(compiled);
        append_all(&mut errors, step);
        proof {
            assert(views(errors@) =~= views(carried_part) + views(step@));
            if zero_step(*compiled) {
                assert(views(step@) =~= seq!["input `step` holds a zero parameter — the sequence would never move"@]);
            } else {
                assert(views(step@) =~= Seq::<Seq<char>>::empty());
            }
        }
        errors
    } else {
        let none: Vec<String> = Vec::new();
        assert(views(none@) =~= Seq::<Seq<char>>::empty());
        none
    }
}

/// The operand nodes' check: both operands carried.
pub fn operands_check(compiled: &CompiledNode) -> (errors: Vec<String>)
    ensures
        views(errors@) == uncarried_errors(*compiled, seq!["a", "b"]),
{
    let names = vec!["a", "b"];
    let errors = carried_check(compiled, &names);
    proof {
        lemma_checked(errors@, *compiled, names@);
        assert(names@ =~= seq!["a", "b"]);
    }
    errors
}

/// The case selection's check: all three streams carried.
pub fn case_check(compiled: &CompiledNode) -> (errors: Vec<String>)
    ensures
        views(errors@) == uncarried_errors(*compiled, seq!["count", "fizz", "buzz"]),
{
    let names = vec!["count", "fizz", "buzz"];
    let errors = carried_check(compiled, &names);
    proof {
        lemma_checked(errors@, *compiled, names@);
        assert(names@ =~= seq!["count", "fizz", "buzz"]);
    }
    errors
}

} // verus!
