//! Text output on the loader's screen, and reporting an internal error
//! before halting.

use vstd::prelude::*;

use crate::num_to_str::{canonical_decimal, decimal_value, U32_DIGITS};
use vstd::string::StringSliceAdditionalSpecFns;

verus! {

/// The screen the loader reports on, and the way it stops the machine. The
/// spec functions' default bodies are closed placeholders for
/// implementations built outside verification.
pub trait Console: Sized {
    /// Every byte printed so far.
    closed spec fn output(&self) -> Seq<u8> {
        Seq::empty()
    }

    /// Whether the machine has been halted.
    closed spec fn halted(&self) -> bool {
        false
    }

    fn print_char(&mut self, ch: u8)
        requires
            !old(self).halted(),
        ensures
            final(self).output() == old(self).output().push(ch),
            final(self).halted() == old(self).halted(),
    ;

    /// Stops the machine; on real hardware this does not return.
    fn halt(&mut self)
        ensures
            final(self).output() == old(self).output(),
            final(self).halted(),
    ;
}

pub fn print_byte_str<C: Console>(console: &mut C, text: &[u8])
    requires
        !old(console).halted(),
    ensures
        final(console).output() == old(console).output() + text@,
        final(console).halted() == old(console).halted(),
{
    let n = text.len();
    let mut i: usize = 0;
    while i < n
        invariant
            n == text@.len(),
            i <= n,
            console.output() == old(console).output() + text@.subrange(0, i as int),
            console.halted() == old(console).halted(),
            !console.halted(),
        decreases n - i,
    {
        console.print_char(text[i]);
        proof {
            assert(text@.subrange(0, i + 1) =~= text@.subrange(0, i as int).push(text@[i as int]));
        }
        i = i + 1;
    }
    proof {
        assert(text@.subrange(0, n as int) =~= text@);
    }
}

pub fn print_str<C: Console>(console: &mut C, text: &str)
    requires
        !old(console).halted(),
    ensures
        final(console).output() == old(console).output() + text.spec_bytes(),
        final(console).halted() == old(console).halted(),
{
    print_byte_str(console, text.as_bytes());
}

/// The canonical decimal spelling of `val`.
pub open spec fn is_decimal_of(s: Seq<u8>, val: int) -> bool {
    canonical_decimal(s) && decimal_value(s) == val
}

pub fn print_u32<C: Console>(console: &mut C, val: u32)
    requires
        !old(console).halted(),
    ensures
        final(console).halted() == old(console).halted(),
        exists|digits: Seq<u8>|
            #[trigger] is_decimal_of(digits, val as int) && final(console).output() == old(
                console,
            ).output() + digits,
{
    let mut storage: Vec<u8> = vec![0u8; U32_DIGITS];
    let first = crate::num_to_str::u32(val, storage.as_mut_slice());
    let ghost digits = storage@.subrange(first as int, U32_DIGITS as int);
    let ghost before = console.output();
    let mut i: usize = first;
    while i < U32_DIGITS
        invariant
            storage@.len() == U32_DIGITS,
            first <= i <= U32_DIGITS,
            digits == storage@.subrange(first as int, U32_DIGITS as int),
            before == old(console).output(),
            console.output() == before + storage@.subrange(first as int, i as int),
            console.halted() == old(console).halted(),
            !console.halted(),
        decreases U32_DIGITS - i,
    {
        console.print_char(storage[i]);
        proof {
            assert(storage@.subrange(first as int, i + 1) =~= storage@.subrange(first as int, i as int).push(
                storage@[i as int],
            ));
        }
        i = i + 1;
    }
    proof {
        assert(is_decimal_of(digits, val as int));
    }
}

/// Reports an internal error as `internal error: <file>:<line>: <err1><err2>`,
/// then halts: the console is halted only once all of it is printed.
pub fn simple_panic<C: Console>(console: &mut C, file: &str, line: u32, err1: &str, err2: &str)
    requires
        !old(console).halted(),
    ensures
        final(console).halted(),
        exists|digits: Seq<u8>|
            #[trigger] is_decimal_of(digits, line as int) && final(console).output() == old(
                console,
            ).output() + "internal error: ".spec_bytes() + file.spec_bytes() + seq![58u8] + digits
                + ": ".spec_bytes() + err1.spec_bytes() + err2.spec_bytes(),
{
    print_str(console, "internal error: ");
    print_str(console, file);
    console.print_char(58);
    let ghost before = console.output();
    print_u32(console, line);
    let ghost digits = choose|d: Seq<u8>|
        #[trigger] is_decimal_of(d, line as int) && console.output() == before + d;
    print_str(console, ": ");
    print_str(console, err1);
    print_str(console, err2);
    console.halt();
    proof {
        assert(console.output() =~= old(console).output() + "internal error: ".spec_bytes()
            + file.spec_bytes() + seq![58u8] + digits + ": ".spec_bytes() + err1.spec_bytes()
            + err2.spec_bytes());
    }
}

/// Reports an internal error like `simple_panic`, for a line number given as
/// `usize` (printed as its low 32 bits), then halts.
pub fn panic<C: Console>(console: &mut C, file: &str, line: usize, err1: &str, err2: &str)
    requires
        !old(console).halted(),
    ensures
        final(console).halted(),
        exists|digits: Seq<u8>|
            #[trigger] is_decimal_of(digits, (line as u32) as int) && final(console).output()
                == old(console).output() + "internal error: ".spec_bytes() + file.spec_bytes()
                + seq![58u8] + digits + ": ".spec_bytes() + err1.spec_bytes() + err2.spec_bytes(),
{
    simple_panic(console, file, line as u32, err1, err2);
}

/// A writer that prints everything written to it.
pub struct SimpleWriter<C: Console> {
    pub console: C,
}

impl<C: Console> SimpleWriter<C> {
    pub fn write_str(&mut self, x: &str) -> (r: Result<(), ()>)
        requires
            !old(self).console.halted(),
        ensures
            final(self).console.output() == old(self).console.output() + x.spec_bytes(),
            final(self).console.halted() == old(self).console.halted(),
            r is Ok,
    {
        print_str(&mut self.console, x);
        Ok(())
    }
}

} // verus!
