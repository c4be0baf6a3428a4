use vstd::prelude::*;
use vstd::string::StrSliceExecFns;

verus! {

/// Bytes the console receives for one character: a line feed goes out as
/// carriage return and line feed, anything else as its low byte.
pub open spec fn char_bytes(c: char) -> Seq<u8> {
    if c == '\n' {
        seq![13u8, 10u8]
    } else {
        seq![(c as u32 % 256) as u8]
    }
}

/// Bytes the console receives for a string.
pub open spec fn console_bytes(s: Seq<char>) -> Seq<u8>
    decreases s.len(),
{
    if s.len() == 0 {
        seq![]
    } else {
        console_bytes(s.drop_last()) + char_bytes(s.last())
    }
}

/// The bytes to put on the console, one by one, to print `s`.
pub fn puts(s: &str) -> (r: Vec<u8>)
    ensures
        r@ == console_bytes(s@),
{
    let n = s.unicode_len();
    let mut r: Vec<u8> = Vec::new();
    let mut i: usize = 0;
    while i < n
        invariant
            n == s@.len(),
            0 <= i <= n,
            r@ == console_bytes(s@.subrange(0, i as int)),
        decreases n - i,
    {
        let c = s.get_char(i);
        assert(s@.subrange(0, i + 1).drop_last() =~= s@.subrange(0, i as int));
        if c == '\n' {
            r.push(13u8);
            r.push(10u8);
        } else {
            r.push((c as u32 % 256) as u8);
        }
        assert(r@ =~= console_bytes(s@.subrange(0, i + 1)));
        i = i + 1;
    }
    assert(s@.subrange(0, n as int) =~= s@);
    r
}

/// What the platform provides to the trap entry.
pub trait TrapHandler {
    /// Handles the interrupt with the given cause.
    fn handle_irq(irq_num: usize);
}

/// What the logger needs from the kernel around it.
pub trait LogIf {
    /// Writes a string to the console.
    fn console_write_str(s: &str);

    /// Time since boot, in nanoseconds.
    fn current_time_nanos() -> u64;

    /// The current task's identifier, once tasks exist.
    fn current_task_id() -> Option<u64>;
}

} // verus!
