use crate::common::Symbol;
use crate::error::{Error, ErrorKind};
use vstd::prelude::*;
use vstd::slice::slice_subrange;

verus! {

/// The number of bytes that hold one symbol of `T`.
pub open spec fn symbol_width<T: Symbol>() -> int {
    T::bits() as int / 8
}

/// A source of symbols, read from a byte string.
pub trait SymbolRead<T: Symbol> {
    /// The bytes not yet read.
    spec fn remaining(&self) -> Seq<u8>;

    /// The symbol that the first `symbol_width()` bytes of `bytes` stand for.
    spec fn symbol_of(bytes: Seq<u8>) -> T;

    /// The next symbol; `None` at a clean end, where no byte is left; and the error
    /// `UnexpectedEof` where bytes are left, but fewer than a symbol has. Those are then used up.
    fn read_one(&mut self) -> (r: Result<Option<T>, Error>)
        ensures
            match r {
                Ok(Some(s)) => {
                    &&& old(self).remaining().len() >= symbol_width::<T>()
                    &&& s == Self::symbol_of(old(self).remaining())
                    &&& final(self).remaining() == old(self).remaining().skip(symbol_width::<T>())
                },
                Ok(None) => old(self).remaining().len() == 0 && final(self).remaining().len() == 0,
                Err(e) => {
                    &&& 0 < old(self).remaining().len() < symbol_width::<T>()
                    &&& final(self).remaining().len() == 0
                    &&& e.kind() == ErrorKind::UnexpectedEof
                },
            },
    ;
}

/// Reads bytes as symbols.
pub struct SymbolRead8<'a>(pub &'a [u8]);

impl<'a> SymbolRead<u8> for SymbolRead8<'a> {
    open spec fn remaining(&self) -> Seq<u8> {
        self.0@
    }

    open spec fn symbol_of(bytes: Seq<u8>) -> u8 {
        bytes[0]
    }

    fn read_one(&mut self) -> (r: Result<Option<u8>, Error>) {
        if self.0.len() == 0 {
            return Ok(None);
        }
        let symbol = self.0[0];
        self.0 = slice_subrange(self.0, 1, self.0.len());
        assert(self.0@ =~= old(self).0@.skip(1));
        Ok(Some(symbol))
    }
}

/// Takes the next two bytes of `r`. Where none is left, that is a clean end and no error;
/// where one is left, it is used up, and that is the error `UnexpectedEof`.
pub fn read_two_bytes<'a>(r: &mut &'a [u8]) -> (res: Result<Option<[u8; 2]>, Error>)
    ensures
        match res {
            Ok(Some(pair)) => {
                &&& old(r)@.len() >= 2
                &&& pair@ == old(r)@.take(2)
                &&& final(r)@ == old(r)@.skip(2)
            },
            Ok(None) => old(r)@.len() == 0 && final(r)@.len() == 0,
            Err(e) => old(r)@.len() == 1 && final(r)@.len() == 0 && e.kind()
                == ErrorKind::UnexpectedEof,
        },
{
    let bytes_read: usize = if r.len() < 2 {
        r.len()
    } else {
        2
    };
    let taken = slice_subrange(*r, 0, bytes_read);
    *r = slice_subrange(*r, bytes_read, r.len());
    if bytes_read == 2 {
        let pair = [taken[0], taken[1]];
        assert(pair@ =~= old(r)@.take(2));
        assert(r@ =~= old(r)@.skip(2));
        Ok(Some(pair))
    } else if bytes_read == 1 {
        Err(Error::new(ErrorKind::UnexpectedEof))
    } else {
        Ok(None)
    }
}

/// The 16-bit word with `high` as its upper byte and `low` as its lower byte.
pub open spec fn word_of(high: u8, low: u8) -> u16 {
    (high as u16 * 256 + low as u16) as u16
}

fn make_word(high: u8, low: u8) -> (r: u16)
    ensures
        r == word_of(high, low),
{
    (high as u16) * 256 + (low as u16)
}

/// Reads 16-bit words, each with its lower byte first.
pub struct SymbolRead16LE<'a>(pub &'a [u8]);

impl<'a> SymbolRead<u16> for SymbolRead16LE<'a> {
    open spec fn remaining(&self) -> Seq<u8> {
        self.0@
    }

    open spec fn symbol_of(bytes: Seq<u8>) -> u16 {
        word_of(bytes[1], bytes[0])
    }

    fn read_one(&mut self) -> (r: Result<Option<u16>, Error>) {
        match read_two_bytes(&mut self.0) {
            Ok(Some(pair)) => Ok(Some(make_word(pair[1], pair[0]))),
            Ok(None) => Ok(None),
            Err(e) => Err(e),
        }
    }
}

/// Reads 16-bit words, each with its upper byte first.
pub struct SymbolRead16BE<'a>(pub &'a [u8]);

impl<'a> SymbolRead<u16> for SymbolRead16BE<'a> {
    open spec fn remaining(&self) -> Seq<u8> {
        self.0@
    }

    open spec fn symbol_of(bytes: Seq<u8>) -> u16 {
        word_of(bytes[0], bytes[1])
    }

    fn read_one(&mut self) -> (r: Result<Option<u16>, Error>) {
        match read_two_bytes(&mut self.0) {
            Ok(Some(pair)) => Ok(Some(make_word(pair[0], pair[1]))),
            Ok(None) => Ok(None),
            Err(e) => Err(e),
        }
    }
}

/// A sink of symbols, written to a byte string.
pub trait SymbolWrite<T: Symbol> {
    /// The bytes written so far.
    spec fn written(&self) -> Seq<u8>;

    /// The `symbol_width()` bytes that stand for `symbol`.
    spec fn bytes_of(symbol: T) -> Seq<u8>;

    /// Appends the bytes of one symbol.
    fn write_one(&mut self, symbol: T) -> (r: Result<(), Error>)
        ensures
            r is Ok,
            final(self).written() == old(self).written() + Self::bytes_of(symbol),
    ;

    /// Hands on what the sink holds.
    fn flush(&mut self) -> (r: Result<(), Error>)
        ensures
            r is Ok,
            final(self).written() == old(self).written(),
    ;
}

/// Writes symbols as bytes.
pub struct SymbolWrite8(pub Vec<u8>);

impl SymbolWrite<u8> for SymbolWrite8 {
    open spec fn written(&self) -> Seq<u8> {
        self.0@
    }

    open spec fn bytes_of(symbol: u8) -> Seq<u8> {
        seq![symbol]
    }

    fn write_one(&mut self, symbol: u8) -> (r: Result<(), Error>) {
        self.0.push(symbol);
        assert(self.0@ =~= old(self).0@ + seq![symbol]);
        Ok(())
    }

    fn flush(&mut self) -> (r: Result<(), Error>) {
        Ok(())
    }
}

/// The upper byte of a word.
pub open spec fn high_byte(symbol: u16) -> u8 {
    (symbol / 256) as u8
}

/// The lower byte of a word.
pub open spec fn low_byte(symbol: u16) -> u8 {
    (symbol % 256) as u8
}

/// Writes 16-bit words, each with its lower byte first.
pub struct SymbolWrite16LE(pub Vec<u8>);

impl SymbolWrite<u16> for SymbolWrite16LE {
    open spec fn written(&self) -> Seq<u8> {
        self.0@
    }

    open spec fn bytes_of(symbol: u16) -> Seq<u8> {
        seq![low_byte(symbol), high_byte(symbol)]
    }

    fn write_one(&mut self, symbol: u16) -> (r: Result<(), Error>) {
        self.0.push((symbol % 256) as u8);
        self.0.push((symbol / 256) as u8);
        assert(self.0@ =~= old(self).0@ + seq![low_byte(symbol), high_byte(symbol)]);
        Ok(())
    }

    fn flush(&mut self) -> (r: Result<(), Error>) {
        Ok(())
    }
}

/// Writes 16-bit words, each with its upper byte first.
pub struct SymbolWrite16BE(pub Vec<u8>);

impl SymbolWrite<u16> for SymbolWrite16BE {
    open spec fn written(&self) -> Seq<u8> {
        self.0@
    }

    open spec fn bytes_of(symbol: u16) -> Seq<u8> {
        seq![high_byte(symbol), low_byte(symbol)]
    }

    fn write_one(&mut self, symbol: u16) -> (r: Result<(), Error>) {
        self.0.push((symbol / 256) as u8);
        self.0.push((symbol % 256) as u8);
        assert(self.0@ =~= old(self).0@ + seq![high_byte(symbol), low_byte(symbol)]);
        Ok(())
    }

    fn flush(&mut self) -> (r: Result<(), Error>) {
        Ok(())
    }
}

} // verus!
