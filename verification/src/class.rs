//! Scheduling classes and their CPU entitlements.

use vstd::prelude::*;

verus! {

/// Milli-cores in one core, and in one unit of weight.
pub const MILLICORES_PER_CORE: u32 = 1000;

/// Identifies a scheduling class.
///
/// Classes are intentionally small, copyable values so applications can name
/// them at their request or workload boundaries. The class of identifier zero
/// is the default class, the one used when none is named.
#[derive(Clone, Copy, Debug, PartialEq, Eq, PartialOrd, Ord, Hash, Structural)]
pub struct TaskClass(u32);

impl View for TaskClass {
    type V = u32;

    closed spec fn view(&self) -> u32 {
        self.0
    }
}

impl TaskClass {
    /// The class of an identifier.
    pub closed spec fn of(id: u32) -> TaskClass {
        TaskClass(id)
    }

    /// A class is the class of its identifier.
    pub broadcast proof fn lemma_of_view(class: TaskClass)
        ensures
            TaskClass::of(#[trigger] class@) == class,
    {
    }

    /// Creates a class from an application-defined identifier.
    pub fn new(id: u32) -> (class: TaskClass)
        ensures
            class == TaskClass::of(id),
            class@ == id,
    {
        TaskClass(id)
    }

    /// Returns the application-defined identifier.
    pub fn id(self) -> (id: u32)
        ensures
            id == self@,
    {
        self.0
    }

    /// Returns the identifier in decimal, for messages.
    pub fn to_string(&self) -> (text: String)
        ensures
            text@ == decimal(self@ as nat),
    {
        decimal_string(self.0)
    }
}

impl Default for TaskClass {
    /// Returns the default class.
    fn default() -> (class: TaskClass)
        ensures
            class == TaskClass::of(0),
            class@ == 0,
    {
        TaskClass(0)
    }
}

/// The character of one decimal digit.
pub open spec fn digit(d: nat) -> char {
    (48 + d) as char
}

/// A number in decimal, most significant digit first and without leading zeros.
pub open spec fn decimal(n: nat) -> Seq<char>
    decreases n,
{
    if n < 10 {
        seq![digit(n)]
    } else {
        decimal(n / 10).push(digit(n % 10))
    }
}

/// The number that a text of decimal digits stands for.
pub open spec fn number(text: Seq<char>) -> int
    decreases text.len(),
{
    if text.len() == 0 {
        0
    } else {
        10 * number(text.drop_last()) + (text.last() as int - '0' as int)
    }
}

/// A number in decimal is made of digits, stands for that number, and starts with
/// zero only if it is zero.
pub proof fn law_decimals_stand_for_their_number(n: nat)
    ensures
        decimal(n).len() > 0,
        number(decimal(n)) == n,
        forall|i: int|
            0 <= i < decimal(n).len() ==> '0' <= (#[trigger] decimal(n)[i]) && decimal(n)[i] <= '9',
        decimal(n)[0] == '0' <==> n == 0,
    decreases n,
{
    let text = decimal(n);
    if n < 10 {
        assert(number(text.drop_last()) == 0);
    } else {
        law_decimals_stand_for_their_number(n / 10);
        assert(text.drop_last() =~= decimal(n / 10));
    }
}

/// Calls the `to_string` that std gives every `u32` through `Display`, and
/// claims that it writes the number in decimal.
#[verifier::external_body]
fn decimal_string(n: u32) -> (text: String)
    ensures
        text@ == decimal(n as nat),
{
    n.to_string()
}

/// A positive, fixed-point CPU entitlement in milli-cores.
///
/// Entitlements are relative and work-conserving: they say how capacity is
/// shared between classes that compete for it, not how much a class may use.
#[derive(Clone, Copy, Debug, PartialEq, Eq, PartialOrd, Ord, Hash, Structural)]
pub struct SoftCpuLimit(u32);

impl View for SoftCpuLimit {
    type V = u32;

    closed spec fn view(&self) -> u32 {
        self.0
    }
}

impl SoftCpuLimit {
    /// Every limit is positive.
    #[verifier::type_invariant]
    closed spec fn positive(self) -> bool {
        self.0 > 0
    }

    /// Creates a limit of `millicores`, or nothing when it is zero.
    pub fn from_millicores(millicores: u32) -> (limit: Option<SoftCpuLimit>)
        ensures
            limit is None <==> millicores == 0,
            limit matches Some(l) ==> l@ == millicores,
    {
        if millicores == 0 {
            None
        } else {
            Some(SoftCpuLimit(millicores))
        }
    }

    /// Creates a limit of whole cores, or nothing when `cores` is zero or its
    /// milli-cores do not fit.
    pub fn from_cores(cores: u32) -> (limit: Option<SoftCpuLimit>)
        ensures
            limit is None <==> cores == 0 || cores * MILLICORES_PER_CORE > u32::MAX,
            limit matches Some(l) ==> l@ == cores * MILLICORES_PER_CORE,
    {
        match cores.checked_mul(MILLICORES_PER_CORE) {
            Some(millicores) => SoftCpuLimit::from_millicores(millicores),
            None => None,
        }
    }

    /// Returns the entitlement in milli-cores.
    pub fn millicores(self) -> (millicores: u32)
        ensures
            millicores == self@,
            millicores > 0,
    {
        proof {
            use_type_invariant(&self);
        }
        self.0
    }
}

/// What a class is entitled to when classes compete.
///
/// A class is configured either by a weight, which counts as that many cores, or
/// by a soft CPU limit, and is then listed with weight zero.
#[derive(Clone, Copy, Debug, PartialEq, Eq, Structural)]
pub struct Entitlement {
    /// The configured weight, or zero for a soft CPU limit.
    pub weight: u32,
    /// The share in milli-cores.
    pub millicores: u64,
}

impl Entitlement {
    /// Whether this is an entitlement that a class can have.
    pub open spec fn valid(self) -> bool {
        &&& self.millicores > 0
        &&& self.weight > 0 ==> self.millicores == self.weight * MILLICORES_PER_CORE
        &&& self.weight == 0 ==> self.millicores <= u32::MAX
    }

    /// The entitlement of a class of the given weight.
    pub open spec fn weighted(weight: u32) -> Entitlement {
        Entitlement { weight, millicores: (weight * MILLICORES_PER_CORE) as u64 }
    }

    /// The entitlement of a class with a soft CPU limit.
    pub open spec fn limited(limit: SoftCpuLimit) -> Entitlement {
        Entitlement { weight: 0, millicores: limit@ as u64 }
    }

    /// Makes the entitlement of a class of the given weight.
    pub fn from_weight(weight: u32) -> (entitlement: Entitlement)
        requires
            weight > 0,
        ensures
            entitlement == Entitlement::weighted(weight),
            entitlement.valid(),
    {
        assert(0 < weight * MILLICORES_PER_CORE <= u64::MAX) by (nonlinear_arith)
            requires
                0 < weight <= u32::MAX,
                MILLICORES_PER_CORE == 1000,
        ;
        Entitlement { weight, millicores: weight as u64 * MILLICORES_PER_CORE as u64 }
    }

    /// Makes the entitlement of a class with a soft CPU limit.
    pub fn from_limit(limit: SoftCpuLimit) -> (entitlement: Entitlement)
        ensures
            entitlement == Entitlement::limited(limit),
            entitlement.valid(),
    {
        Entitlement { weight: 0, millicores: limit.millicores() as u64 }
    }
}

} // verus!
