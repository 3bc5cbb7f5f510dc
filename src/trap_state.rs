use vstd::prelude::*;

verus! {

/// One hexadecimal digit, lower case, for `d < 16`.
pub open spec fn hex_char(d: nat) -> char {
    if d < 10 {
        ((d + 48) as u8) as char
    } else {
        ((d + 87) as u8) as char
    }
}

/// The digits of `n` in base sixteen, most significant first, without
/// leading zeros (zero itself is the single digit `0`).
pub open spec fn hex_digits(n: nat) -> Seq<char>
    decreases n,
{
    if n < 16 {
        seq![hex_char(n)]
    } else {
        hex_digits(n / 16).push(hex_char(n % 16))
    }
}

/// An address as `0x` followed by its lower-case hexadecimal digits.
pub open spec fn address_text(a: nat) -> Seq<char> {
    seq!['0', 'x'] + hex_digits(a)
}

/// The message carried by the error of a failed guest call.
pub open spec fn trap_text(pc: nat) -> Seq<char> {
    "wasm trap at "@ + address_text(pc)
}

fn hex_digit_str(d: usize) -> (r: &'static str)
    requires
        d < 16,
    ensures
        r@ == seq![hex_char(d as nat)],
{
    proof {
        reveal_strlit("0");
        reveal_strlit("1");
        reveal_strlit("2");
        reveal_strlit("3");
        reveal_strlit("4");
        reveal_strlit("5");
        reveal_strlit("6");
        reveal_strlit("7");
        reveal_strlit("8");
        reveal_strlit("9");
        reveal_strlit("a");
        reveal_strlit("b");
        reveal_strlit("c");
        reveal_strlit("d");
        reveal_strlit("e");
        reveal_strlit("f");
    }
    let r = match d {
        0 => "0",
        1 => "1",
        2 => "2",
        3 => "3",
        4 => "4",
        5 => "5",
        6 => "6",
        7 => "7",
        8 => "8",
        9 => "9",
        10 => "a",
        11 => "b",
        12 => "c",
        13 => "d",
        14 => "e",
        _ => "f",
    };
    assert(r@ =~= seq![hex_char(d as nat)]);
    r
}

fn append_hex(s: &mut String, n: usize)
    ensures
        final(s)@ == old(s)@ + hex_digits(n as nat),
    decreases n,
{
    if n >= 16 {
        append_hex(s, n / 16);
    }
    s.append(hex_digit_str(n % 16));
    assert(final(s)@ =~= old(s)@ + hex_digits(n as nat));
}

/// The error text of a failed call that trapped at `pc`.
pub fn trap_message(pc: usize) -> (r: String)
    ensures
        r@ == trap_text(pc as nat),
{
    proof {
        reveal_strlit("wasm trap at 0x");
        reveal_strlit("wasm trap at ");
    }
    let mut s = String::from_str("wasm trap at 0x");
    append_hex(&mut s, pc);
    assert(s@ =~= trap_text(pc as nat));
    s
}

/// The per-thread trap bookkeeping: the address of the last recorded trap
/// (zero when none is pending), the recovery point that an unwind resumes
/// at, and whether the stack guard page must be restored after an unwind.
pub struct TrapState {
    pub trap_pc: usize,
    pub scope: usize,
    pub fix_stack: bool,
}

/// What a guest call came to, as seen by the call boundary.
pub enum CallOutcome {
    /// The guest code returned normally.
    Returned,
    /// The guest code trapped: `restore_guard` asks the caller to restore the
    /// stack guard page (aborting if that fails) before surfacing `message`.
    Trapped { message: String, restore_guard: bool },
}

/// The state after `scope` becomes the active recovery point.
pub open spec fn entered(s: TrapState, scope: usize) -> TrapState {
    TrapState { scope, ..s }
}

/// The state after the scopes of `scopes` are entered one inside the other,
/// each returned previous value kept, and then left innermost first, each
/// leave restoring the value its enter returned.
pub open spec fn nested(s: TrapState, scopes: Seq<usize>) -> TrapState
    decreases scopes.len(),
{
    if scopes.len() == 0 {
        s
    } else {
        let inner = nested(entered(s, scopes[0]), scopes.drop_first());
        entered(inner, s.scope)
    }
}

/// Entering any number of nested scopes and leaving each with the value its
/// enter returned brings the state back to where it was: the next read of
/// the recovery point returns the outer one again.
pub proof fn lemma_nested_scopes_restore(s: TrapState, scopes: Seq<usize>)
    ensures
        nested(s, scopes) == s,
    decreases scopes.len(),
{
    if scopes.len() > 0 {
        lemma_nested_scopes_restore(entered(s, scopes[0]), scopes.drop_first());
    }
}

impl TrapState {
    /// A thread's state before any guest call: nothing recorded, no scope.
    pub fn new() -> (r: TrapState)
        ensures
            r.trap_pc == 0,
            r.scope == 0,
            !r.fix_stack,
    {
        TrapState { trap_pc: 0, scope: 0, fix_stack: false }
    }

    /// Records the address at which guest code faulted.
    pub fn record_trap(&mut self, pc: usize)
        ensures
            *final(self) == (TrapState { trap_pc: pc, ..*old(self) }),
    {
        self.trap_pc = pc;
    }

    /// Makes `scope` the active recovery point and returns the previous one,
    /// which the caller hands back to `leave_scope` on every exit path.
    pub fn enter_scope(&mut self, scope: usize) -> (prev: usize)
        ensures
            prev == old(self).scope,
            *final(self) == entered(*old(self), scope),
    {
        let prev = self.scope;
        self.scope = scope;
        prev
    }

    /// The active recovery point.
    pub fn get_scope(&self) -> (r: usize)
        ensures
            r == self.scope,
    {
        self.scope
    }

    /// Restores `scope`, the value that the matching `enter_scope` returned.
    pub fn leave_scope(&mut self, scope: usize)
        ensures
            *final(self) == entered(*old(self), scope),
    {
        self.scope = scope;
    }

    /// Asks for the stack guard page to be restored once the unwind is done.
    pub fn fix_stack_after_unwinding(&mut self)
        ensures
            *final(self) == (TrapState { fix_stack: true, ..*old(self) }),
    {
        self.fix_stack = true;
    }

    /// Reads and clears the guard-page request: `true` when the caller must
    /// restore the guard page now.
    pub fn take_fix_stack(&mut self) -> (r: bool)
        ensures
            r == old(self).fix_stack,
            *final(self) == (TrapState { fix_stack: false, ..*old(self) }),
    {
        let r = self.fix_stack;
        self.fix_stack = false;
        r
    }

    /// Reads and clears the recorded trap address and returns the message
    /// that names it.
    pub fn take_trap_message(&mut self) -> (r: String)
        ensures
            r@ == trap_text(old(self).trap_pc as nat),
            *final(self) == (TrapState { trap_pc: 0, ..*old(self) }),
    {
        let pc = self.trap_pc;
        self.trap_pc = 0;
        trap_message(pc)
    }

    /// Interprets the status a native trampoline returned: zero is a trap,
    /// anything else a normal return. After a trap the guard-page request
    /// and the trap address are both consumed, so neither leaks into the
    /// next call on this thread.
    pub fn finish_call(&mut self, status: i32) -> (r: CallOutcome)
        ensures
            status != 0 ==> r is Returned && *final(self) == *old(self),
            status == 0 ==> (match r {
                CallOutcome::Trapped { message, restore_guard } => {
                    &&& restore_guard == old(self).fix_stack
                    &&& message@ == trap_text(old(self).trap_pc as nat)
                },
                CallOutcome::Returned => false,
            }),
            status == 0 ==> *final(self) == (TrapState {
                trap_pc: 0,
                fix_stack: false,
                ..*old(self)
            }),
    {
        if status == 0 {
            let restore_guard = self.take_fix_stack();
            let message = self.take_trap_message();
            CallOutcome::Trapped { message, restore_guard }
        } else {
            CallOutcome::Returned
        }
    }
}

} // verus!
