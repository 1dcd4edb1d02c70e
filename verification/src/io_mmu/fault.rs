//! Faults of device-backed memory.

use vstd::prelude::*;
use vstd::string::StringExecFns;
use crate::decimal;

verus! {

/// An error of a device, carried through unread.
#[verifier::external_type_specification]
#[verifier::external_body]
pub struct ExAnyhowError(anyhow::Error);

/// `anyhow::Error`'s `to_string`: what the error says of itself.
///
/// The text is that of the error which the device made, so nothing is said of it here.
#[verifier::external_body]
fn error_text(error: &anyhow::Error) -> (r: String) {
    error.to_string()
}

/// Why a memory access failed.
pub enum MemoryFaultReason {
    /// The access is not permitted.
    GeneralProtection,
    /// The device behind the memory failed.
    MemoryBus(anyhow::Error),
}

/// Fault returned when a memory access is invalid.
///
/// This is returned when an access:
/// - targets an unmapped page,
/// - violates page permissions,
/// - overflows the virtual address range,
/// - fails an address-alignment check required by a specific operation,
/// - crosses into an unmapped or insufficiently-permitted page,
/// - or otherwise fails MMU validation.
pub struct MemoryFault {
    pub vaddr: u64,
    pub reason: MemoryFaultReason,
}

impl MemoryFault {
    /// The fault of an access at `vaddr` that is not permitted.
    pub fn general_protection(vaddr: u64) -> (r: Self)
        ensures
            r == (MemoryFault { vaddr, reason: MemoryFaultReason::GeneralProtection }),
    {
        MemoryFault { vaddr, reason: MemoryFaultReason::GeneralProtection }
    }

    /// The fault of an access at `vaddr` whose device failed.
    pub fn memory_bus(vaddr: u64, reason: anyhow::Error) -> (r: Self)
        ensures
            r == (MemoryFault { vaddr, reason: MemoryFaultReason::MemoryBus(reason) }),
    {
        MemoryFault { vaddr, reason: MemoryFaultReason::MemoryBus(reason) }
    }
}

/// What is said of a fault at `vaddr` for the reason that `reason` says.
pub open spec fn fault_text(vaddr: u64, reason: Seq<char>) -> Seq<char> {
    "memory fault at "@ + decimal::decimal(vaddr as nat) + ": "@ + reason
}

/// What is said of a device that failed and says `told`.
pub open spec fn bus_text(told: Seq<char>) -> Seq<char> {
    "invalid memory access "@ + told
}

/// The error may answer `told` when it is asked what it says of itself.
pub closed spec fn may_say(error: anyhow::Error, told: Seq<char>) -> bool {
    exists|text: String| #[trigger] call_ensures(error_text, (&error,), text) && text@ == told
}

impl MemoryFaultReason {
    /// What is said of an access that is not permitted, or of a device that failed and
    /// says `told`.
    pub fn describe(told: Option<String>) -> (r: String)
        ensures
            r@ == match told {
                None => "invalid memory permisions"@,
                Some(told) => bus_text(told@),
            },
    {
        match told {
            None => String::from_str("invalid memory permisions"),
            Some(told) => {
                let mut text = String::from_str("invalid memory access ");
                text.append(told.as_str());
                text
            },
        }
    }

    /// What is said of the reason. A device that failed is quoted.
    pub fn message(&self) -> (r: String)
        ensures
            match self {
                MemoryFaultReason::GeneralProtection => r@ == "invalid memory permisions"@,
                MemoryFaultReason::MemoryBus(error) => exists|told: Seq<char>| #[trigger]
                    may_say(*error, told) && r@ == bus_text(told),
            },
    {
        match self {
            MemoryFaultReason::GeneralProtection => Self::describe(None),
            MemoryFaultReason::MemoryBus(error) => {
                let told = error_text(error);
                assert(may_say(*error, told@));
                Self::describe(Some(told))
            },
        }
    }
}

impl MemoryFault {
    /// What is said of a fault at `vaddr` for the reason that `reason` says.
    pub fn describe(vaddr: u64, reason: &str) -> (r: String)
        ensures
            r@ == fault_text(vaddr, reason@),
    {
        let mut text = String::from_str("memory fault at ");
        decimal::append_decimal(&mut text, vaddr);
        text.append(": ");
        text.append(reason);
        text
    }

    /// What is said of the fault. A device that failed is quoted.
    pub fn message(&self) -> (r: String)
        ensures
            match self.reason {
                MemoryFaultReason::GeneralProtection => r@ == fault_text(
                    self.vaddr,
                    "invalid memory permisions"@,
                ),
                MemoryFaultReason::MemoryBus(error) => exists|told: Seq<char>| #[trigger]
                    may_say(error, told) && r@ == fault_text(self.vaddr, bus_text(told)),
            },
    {
        let reason = self.reason.message();
        Self::describe(self.vaddr, reason.as_str())
    }
}

/// What is said of a fault names its address, in decimal, and then its reason.
pub proof fn faults_name_their_address(vaddr: u64, reason: &str, r: String)
    requires
        call_ensures(MemoryFault::describe, (vaddr, reason), r),
    ensures
        exists|digits: Seq<char>| #[trigger]
            decimal::read(digits) == vaddr && r@ == "memory fault at "@ + digits + ": "@ + reason@,
{
    decimal::decimals_read_back(vaddr as nat);
    let digits = decimal::decimal(vaddr as nat);
    assert(decimal::read(digits) == vaddr);
}

/// An access that is not permitted is said to be so, and a device that failed is quoted.
pub proof fn reasons_are_told_apart(told: Option<String>, r: String)
    requires
        call_ensures(MemoryFaultReason::describe, (told,), r),
    ensures
        match told {
            None => r@ == "invalid memory permisions"@,
            Some(told) => r@ == "invalid memory access "@ + told@,
        },
{
}

/// The message of a fault that is not permitted is what is said of its address and of the
/// missing permission.
pub proof fn messages_say_what_is_described(
    vaddr: u64,
    fault: MemoryFault,
    message: String,
    reason: String,
    described: String,
    text: &str,
)
    requires
        call_ensures(MemoryFault::general_protection, (vaddr,), fault),
        call_ensures(MemoryFault::message, (&fault,), message),
        call_ensures(MemoryFaultReason::describe, (None,), reason),
        text@ == reason@,
        call_ensures(MemoryFault::describe, (vaddr, text), described),
    ensures
        message@ == described@,
        fault.vaddr == vaddr,
        fault.reason is GeneralProtection,
{
}

/// A fault of a device keeps its address and the error of the device.
pub proof fn bus_faults_keep_their_error(vaddr: u64, error: anyhow::Error, r: MemoryFault)
    requires
        call_ensures(MemoryFault::memory_bus, (vaddr, error), r),
    ensures
        r.vaddr == vaddr,
        r.reason == MemoryFaultReason::MemoryBus(error),
{
}

/// What is said of the fault of a device names its address, in decimal, and quotes the error.
pub proof fn bus_faults_quote_their_error(fault: MemoryFault, error: anyhow::Error, r: String)
    requires
        fault.reason == MemoryFaultReason::MemoryBus(error),
        call_ensures(MemoryFault::message, (&fault,), r),
    ensures
        exists|digits: Seq<char>, told: Seq<char>|
            {
                &&& #[trigger] decimal::read(digits) == fault.vaddr
                &&& #[trigger] may_say(error, told)
                &&& r@ == "memory fault at "@ + digits + ": "@ + ("invalid memory access "@ + told)
            },
{
    decimal::decimals_read_back(fault.vaddr as nat);
    let digits = decimal::decimal(fault.vaddr as nat);
    let told = choose|told: Seq<char>| #[trigger]
        may_say(error, told) && r@ == fault_text(fault.vaddr, bus_text(told));
    assert(decimal::read(digits) == fault.vaddr && may_say(error, told));
}

/// What is said of the reason alone.
pub proof fn reasons_quote_their_error(reason: MemoryFaultReason, r: String)
    requires
        call_ensures(MemoryFaultReason::message, (&reason,), r),
    ensures
        match reason {
            MemoryFaultReason::GeneralProtection => r@ == "invalid memory permisions"@,
            MemoryFaultReason::MemoryBus(error) => exists|told: Seq<char>| #[trigger]
                may_say(error, told) && r@ == "invalid memory access "@ + told,
        },
{
}

} // verus!
