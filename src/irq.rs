use vstd::prelude::*;
use handler_table::HandlerTable;

verus! {

/// Highest bit of the 64-bit `scause` register: the trap is an interrupt.
pub const INTC_IRQ_BASE: u64 = 0x8000_0000_0000_0000;

/// Supervisor timer interrupt in `scause`.
pub const S_TIMER: u64 = 0x8000_0000_0000_0005;

/// Supervisor external interrupt in `scause`.
pub const S_EXT: u64 = 0x8000_0000_0000_0009;

/// Number of external interrupt lines.
pub const MAX_IRQ_COUNT: usize = 1024;

/// An interrupt handler: a function to call, opaque to the proofs.
#[verifier::external_body]
pub struct IrqHandler(pub fn());

#[verifier::external_type_specification]
#[verifier::external_body]
pub struct ExHandlerTable<const N: usize>(HandlerTable<N>);

/// Lines of the table that hold a handler.
pub uninterp spec fn registered_lines(t: HandlerTable<1024>) -> Set<usize>;

/// Relies on `HandlerTable::new`: every line starts empty.
#[verifier::external_body]
fn table_new() -> (t: HandlerTable<1024>)
    ensures
        registered_lines(t) == Set::<usize>::empty(),
{
    HandlerTable::new()
}

/// Relies on `HandlerTable::register_handler`: succeeds exactly when the
/// line is in range and still empty, and then fills it.
#[verifier::external_body]
fn table_register(t: &mut HandlerTable<1024>, idx: usize, handler: IrqHandler) -> (r: bool)
    ensures
        r == (idx < 1024 && !registered_lines(*old(t)).contains(idx)),
        registered_lines(*final(t)) == if r { registered_lines(*old(t)).insert(idx) } else { registered_lines(*old(t)) },
{
    t.register_handler(idx, handler.0)
}

/// Relies on `HandlerTable::handle`: runs the line's handler and reports
/// whether there was one.
#[verifier::external_body]
fn table_handle(t: &HandlerTable<1024>, idx: usize) -> (r: bool)
    ensures
        r == (idx < 1024 && registered_lines(*t).contains(idx)),
{
    t.handle(idx)
}

/// Calls the handler's function.
#[verifier::external_body]
fn run(handler: &IrqHandler) {
    (handler.0)()
}

/// Interrupt dispatch of the platform: one slot for the timer handler and
/// a table of handlers for external interrupt lines.
pub struct IrqController {
    timer: Option<IrqHandler>,
    table: HandlerTable<1024>,
}

impl IrqController {
    pub closed spec fn has_timer(&self) -> bool {
        self.timer is Some
    }

    /// The timer handler, if one is registered.
    pub closed spec fn timer_handler(&self) -> Option<IrqHandler> {
        self.timer
    }

    pub closed spec fn lines(&self) -> Set<usize> {
        registered_lines(self.table)
    }

    /// No handler registered.
    pub fn new() -> (c: IrqController)
        ensures
            !c.has_timer(),
            c.lines() == Set::<usize>::empty(),
    {
        IrqController { timer: None, table: table_new() }
    }

    /// Registers `handler` for the interrupt `scause` names: the timer
    /// handler once, or the external line `scause` without its interrupt
    /// bit. Reports whether it was taken.
    pub fn register_handler(&mut self, scause: u64, handler: IrqHandler) -> (r: bool)
        requires
            scause == S_TIMER || scause == S_EXT,
        ensures
            scause == S_TIMER ==> {
                &&& r == !old(self).has_timer()
                &&& final(self).has_timer()
                &&& final(self).timer_handler() == if r { Some(handler) } else { old(self).timer_handler() }
                &&& final(self).lines() == old(self).lines()
            },
            scause == S_EXT ==> {
                &&& r == !old(self).lines().contains(9)
                &&& final(self).timer_handler() == old(self).timer_handler()
                &&& final(self).has_timer() == old(self).has_timer()
                &&& final(self).lines() == old(self).lines().insert(9)
            },
    {
        if scause == S_TIMER {
            if self.timer.is_none() {
                self.timer = Some(handler);
                true
            } else {
                false
            }
        } else {
            // The line number: the cause without its interrupt bit.
            let line = (scause - INTC_IRQ_BASE) as usize;
            register_line(&mut self.table, line, handler)
        }
    }

    /// Runs the handler of the interrupt `scause` names: the timer handler,
    /// or that of external line 0. Reports whether a handler ran.
    pub fn dispatch_irq(&self, scause: u64) -> (r: bool)
        requires
            scause == S_TIMER && self.has_timer() || scause == S_EXT,
        ensures
            scause == S_TIMER ==> r,
            scause == S_EXT ==> r == self.lines().contains(0),
    {
        if scause == S_TIMER {
            match &self.timer {
                Some(h) => {
                    run(h);
                    true
                },
                None => false,
            }
        } else {
            table_handle(&self.table, 0)
        }
    }
}

/// Registers a handler for an external line and enables the line.
fn register_line(table: &mut HandlerTable<1024>, line: usize, handler: IrqHandler) -> (r: bool)
    ensures
        r == (line < MAX_IRQ_COUNT && !registered_lines(*old(table)).contains(line)),
        registered_lines(*final(table)) == if r {
            registered_lines(*old(table)).insert(line)
        } else {
            registered_lines(*old(table))
        },
{
    if line < MAX_IRQ_COUNT && table_register(table, line, handler) {
        set_enable(line as u64, true);
        return true;
    }
    false
}

/// Allows or forbids preempting the current task. Tasks here are never
/// preempted, so there is nothing to change.
pub fn set_preemptiable(enabled: bool) {
}

/// Enables or disables an interrupt line at the interrupt controller. The
/// platform has no external controller driver yet, so nothing changes.
pub fn set_enable(scause: u64, enabled: bool) {
}

} // verus!
