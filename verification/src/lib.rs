//! A lossless compressor for streams of 8-bit or 16-bit symbols. Each symbol is written as
//! the path to its leaf in a binary search tree over the alphabet, and after each symbol the
//! parent of that leaf is splayed to the root, so that symbols seen often come to lie near the
//! root and get short codes. The reader makes the same changes to its own tree, and so
//! needs nothing but the bits.

pub mod bits;
pub mod code;
pub mod common;
pub mod error;
pub mod laws;
pub mod levels;
pub mod shape;
pub mod splay;
pub mod stream;
pub mod symbol;
pub mod uniform;

use crate::bits::{pack, unpack, BitReader, BitWriter};
use crate::code::{
    after, code_of, decode, decode_tree, decoded, deep_slot, encode, final_tree, half,
    lemma_span_push, lemma_step_to_slot, leaf_path, pad_len, padding, route, steps_bits, toward,
};
use crate::common::{Direction, NodeRef, Symbol};
use crate::error::{Error, ErrorKind};
use crate::levels::level;
use crate::shape::{lemma_path_spans, span, splay, Step};
use crate::splay::{Arena16, Arena8, NodeArena, Splayable};
use crate::stream::{
    compressed, compressed_part, decompressed, lemma_coding_end, lemma_coding_step,
    lemma_stream_end, parse, render,
};
use crate::symbol::{
    symbol_width, SymbolRead, SymbolRead16BE, SymbolRead16LE, SymbolRead8, SymbolWrite,
    SymbolWrite16BE, SymbolWrite16LE, SymbolWrite8,
};
use crate::uniform::uniform_tree;
use vstd::prelude::*;

verus! {

/// Marks a stream of 8-bit symbols. Among its eight bytes are one NUL and one carriage
/// return, neither at an end, so that a transport that mangles either is found out.
pub const MAGIC_FORMAT_SYMBOL8: [u8; 8] = [0xb3, 0xa9, 0x14, 0x00, 0xb9, 0x6c, 0x0d, 0xd8];

/// Marks a stream of 16-bit symbols with the lower byte first.
pub const MAGIC_FORMAT_SYMBOL16LE: [u8; 8] = [0xf2, 0x41, 0xc0, 0x4f, 0x0d, 0x00, 0x5a, 0xf6];

/// Marks a stream of 16-bit symbols with the upper byte first: the bytes of
/// `MAGIC_FORMAT_SYMBOL16LE` in reverse.
pub const MAGIC_FORMAT_SYMBOL16BE: [u8; 8] = [0xf6, 0x5a, 0x00, 0x0d, 0x4f, 0xc0, 0x41, 0xf2];

/// The width of a symbol, and the order of its bytes.
#[derive(Clone, Copy, Debug, PartialEq, Eq)]
pub enum Flavor {
    Symbol8,
    Symbol16BE,
    Symbol16LE,
}

impl Flavor {
    /// The number of bytes that hold one symbol.
    pub open spec fn width(self) -> int {
        match self {
            Flavor::Symbol8 => 1,
            Flavor::Symbol16BE => 2,
            Flavor::Symbol16LE => 2,
        }
    }

    /// The symbols of `bytes` fill them: none is cut short at the end.
    pub open spec fn accepts(self, bytes: Seq<u8>) -> bool {
        bytes.len() as int % self.width() == 0
    }

    /// The compressed form of `bytes`: the codes of its symbols, in the tree that starts
    /// balanced and has the parent of each symbol's leaf splayed to the root, then the padding
    /// that fills the last byte.
    pub open spec fn compressed(self, bytes: Seq<u8>) -> Seq<u8> {
        match self {
            Flavor::Symbol8 => compressed::<u8, SymbolRead8>(uniform_tree(), bytes),
            Flavor::Symbol16BE => compressed::<u16, SymbolRead16BE>(uniform_tree(), bytes),
            Flavor::Symbol16LE => compressed::<u16, SymbolRead16LE>(uniform_tree(), bytes),
        }
    }

    /// What is written of `bytes` that end within a symbol: the full bytes of the codes of
    /// the whole symbols.
    pub open spec fn compressed_part(self, bytes: Seq<u8>) -> Seq<u8> {
        match self {
            Flavor::Symbol8 => compressed_part::<u8, SymbolRead8>(uniform_tree(), bytes),
            Flavor::Symbol16BE => compressed_part::<u16, SymbolRead16BE>(uniform_tree(), bytes),
            Flavor::Symbol16LE => compressed_part::<u16, SymbolRead16LE>(uniform_tree(), bytes),
        }
    }

    /// The plain form of the compressed `bytes`.
    pub open spec fn decompressed(self, bytes: Seq<u8>) -> Seq<u8> {
        match self {
            Flavor::Symbol8 => decompressed::<u8, SymbolWrite8>(uniform_tree(), bytes),
            Flavor::Symbol16BE => decompressed::<u16, SymbolWrite16BE>(uniform_tree(), bytes),
            Flavor::Symbol16LE => decompressed::<u16, SymbolWrite16LE>(uniform_tree(), bytes),
        }
    }
}

/// Codes one symbol: walks from the root down to the leaf of `symbol`, writes the side
/// taken at each step as a bit, and splays the parent of the leaf to the root.
pub fn encode_symbol<'a, T: Symbol, A: NodeArena<T>>(walker: &mut Splayable<'a, T, A>, writer: &mut BitWriter, symbol: T)
    requires
        old(walker).wf(),
        old(walker).path().len() == 0,
        old(writer).wf(),
    ensures
        final(walker).wf(),
        final(walker).path().len() == 0,
        final(walker).tree() == after(old(walker).tree(), symbol),
        *final(final(walker).arena) == *final(old(walker).arena),
        final(writer).wf(),
        final(writer).bits() == old(writer).bits() + code_of(old(walker).tree(), symbol),
        final(writer).bytes() == pack(final(writer).bits()),
        old(writer).bytes() == pack(old(writer).bits()),
{
    let ghost tree = walker.tree();
    let ghost before = writer.bits();
    let ghost target = symbol.index();
    let ghost mut lo: int = 0;
    let ghost mut hi: int = T::top();
    proof {
        symbol.lemma_index_bounds();
        writer.lemma_packed();
        assert(walker.path() + leaf_path(tree, symbol) =~= leaf_path(tree, symbol));
        assert(steps_bits(walker.path()) =~= Seq::<bool>::empty());
        assert(before + steps_bits(walker.path()) =~= before);
    }
    while !walker.is_leaf()
        invariant
            walker.wf(),
            walker.tree() == tree,
            *final(walker.arena) == *final(old(walker).arena),
            (lo, hi) == span(walker.path(), walker.path().len() as int),
            lo <= target <= hi,
            target == symbol.index(),
            leaf_path(tree, symbol) == walker.path() + route(tree, walker.current(), lo, hi, target),
            writer.wf(),
            writer.bits() == before + steps_bits(walker.path()),
            writer.bytes() == pack(writer.bits()),
        decreases hi - lo,
    {
        let ghost path = walker.path();
        let ghost node = walker.current();
        let here = walker.current_value();
        let bit = symbol.exceeds(here);
        let dir = Direction::from_bit(bit);
        proof {
            lemma_path_spans(tree, path, node, path.len() as int);
            assert(tree.covers(node, lo, hi));
            assert(dir == toward(here, target));
            lemma_span_push(path, (here, dir), path.len() as int);
            let (lo2, hi2) = half(here, dir, lo, hi);
            let below = route(tree, tree.at(here).child(dir), lo2, hi2, target);
            assert(route(tree, node, lo, hi, target) == seq![(here, dir)] + below);
            assert(path.push((here, dir)) + below =~= path + (seq![(here, dir)] + below));
            assert(steps_bits(path.push((here, dir))) =~= steps_bits(path).push(bit));
            assert((before + steps_bits(path)).push(bit) =~= before + steps_bits(
                path.push((here, dir)),
            ));
            lo = lo2;
            hi = hi2;
        }
        walker.go(dir);
        let _ = writer.write_bit(bit);
    }
    proof {
        assert(route(tree, walker.current(), lo, hi, target) =~= Seq::<Step<T>>::empty());
        assert(leaf_path(tree, symbol) =~= walker.path());
    }
    walker.splay_parent_of_leaf();
}

/// Ends a stream: where the last byte is not full, walks from the root towards the leftmost
/// internal node as deep as bits are missing, and writes the sides taken. No leaf is met
/// on the way, so that a reader finds no symbol in these bits.
pub fn write_padding<'a, T: Symbol, A: NodeArena<T>>(walker: &mut Splayable<'a, T, A>, writer: &mut BitWriter)
    requires
        old(walker).wf(),
        old(walker).path().len() == 0,
        old(writer).wf(),
    ensures
        final(walker).tree() == old(walker).tree(),
        *final(final(walker).arena) == *final(old(walker).arena),
        final(writer).wf(),
        final(writer).pending().len() == 0,
        final(writer).bits() == old(writer).bits() + (if pad_len(old(writer).bits().len() as int)
            == 0 {
            Seq::<bool>::empty()
        } else {
            padding(old(walker).tree(), pad_len(old(writer).bits().len() as int) as nat)
        }),
        final(writer).bytes() == pack(final(writer).bits()),
{
    let ghost end = walker.tree();
    let ghost before = writer.bits();
    let need_pad_bits = writer.padding_needed();
    proof {
        T::lemma_alphabet_size();
        writer.lemma_pending_len();
        writer.lemma_packed();
        assert(need_pad_bits == pad_len(before.len() as int));
        assert(before + Seq::<bool>::empty() =~= before);
    }
    if need_pad_bits > 0 {
        let goal = walker.find_deep_internal(need_pad_bits);
        let ghost target = goal.index();
        let ghost whole = route(end, NodeRef::Internal(end.root), 0, T::top(), target);
        let ghost mut lo: int = 0;
        let ghost mut hi: int = T::top();
        let ghost start = writer.pending().len();
        let mut j: usize = 0;
        proof {
            assert(goal == deep_slot(end, need_pad_bits as nat));
            assert(level(end, walker.current(), need_pad_bits as nat)[0] == goal);
            assert(walker.path() + whole =~= whole);
            assert(steps_bits(walker.path()) =~= Seq::<bool>::empty());
            assert(before + steps_bits(walker.path()) =~= before);
        }
        while j < need_pad_bits
            invariant
                j <= need_pad_bits < 8,
                walker.wf(),
                walker.tree() == end,
                *final(walker.arena) == *final(old(walker).arena),
                walker.path().len() == j,
                (lo, hi) == span(walker.path(), walker.path().len() as int),
                end.covers(walker.current(), lo, hi),
                level(end, walker.current(), (need_pad_bits - j) as nat).contains(goal),
                target == goal.index(),
                whole == walker.path() + route(end, walker.current(), lo, hi, target),
                writer.wf(),
                writer.bits() == before + steps_bits(walker.path()),
                writer.bytes() == pack(writer.bits()),
                start + need_pad_bits == 8,
                writer.pending().len() == (start + j) % 8,
            decreases need_pad_bits - j,
        {
            let ghost path = walker.path();
            let ghost node = walker.current();
            proof {
                let _ = lemma_step_to_slot(end, node, lo, hi, goal, (need_pad_bits - j) as nat);
            }
            let here = walker.current_value();
            let bit = goal.exceeds(here);
            let dir = Direction::from_bit(bit);
            proof {
                assert(dir == toward(here, target));
                lemma_span_push(path, (here, dir), path.len() as int);
                let (lo2, hi2) = half(here, dir, lo, hi);
                let below = route(end, end.at(here).child(dir), lo2, hi2, target);
                assert(route(end, node, lo, hi, target) == seq![(here, dir)] + below);
                assert(path.push((here, dir)) + below =~= path + (seq![(here, dir)] + below));
                assert(steps_bits(path.push((here, dir))) =~= steps_bits(path).push(bit));
                assert((before + steps_bits(path)).push(bit) =~= before + steps_bits(
                    path.push((here, dir)),
                ));
                lo = lo2;
                hi = hi2;
            }
            walker.go(dir);
            let _ = writer.write_bit(bit);
            j = j + 1;
        }
        proof {
            assert(whole.take(need_pad_bits as int) =~= walker.path());
            assert(steps_bits(walker.path()) == padding(end, need_pad_bits as nat));
        }
    }
}

/// Compresses the symbols that `r` reads, coding from the tree in `arena`, and appends the
/// stream to `w`: the code of each symbol, and at the end the padding that fills the last
/// byte. Fails where the source ends within a symbol; the full bytes of the codes before
/// that are then written.
#[verifier::loop_isolation(false)]
pub fn compress_raw<T: Symbol, A: NodeArena<T>, R: SymbolRead<T>>(arena: &mut A, r: &mut R, w: &mut Vec<u8>) -> (res: Result<(), Error>)
    requires
        old(arena).model().consistent(),
    ensures
        final(r).remaining().len() == 0,
        final(arena).model() == final_tree(
            old(arena).model(),
            parse::<T, R>(old(r).remaining()),
        ),
        match res {
            Ok(()) => {
                &&& old(r).remaining().len() as int % symbol_width::<T>() == 0
                &&& final(w)@ == old(w)@ + compressed::<T, R>(
                    old(arena).model(),
                    old(r).remaining(),
                )
            },
            Err(e) => {
                &&& old(r).remaining().len() as int % symbol_width::<T>() != 0
                &&& e.kind() == ErrorKind::UnexpectedEof
                &&& final(w)@ == old(w)@ + compressed_part::<T, R>(
                    old(arena).model(),
                    old(r).remaining(),
                )
            },
        },
{
    let ghost t0 = arena.model();
    let ghost w0 = w@;
    let ghost source = r.remaining();
    let ghost all = parse::<T, R>(source);
    let ghost mut done: Seq<bool> = Seq::empty();
    proof {
        assert(unpack(w0) + done =~= unpack(w0));
        assert(done + encode(t0, all) =~= encode(t0, all));
        lemma_stream_end::<T, R>(t0, source, w0);
    }
    let mut sink: Vec<u8> = Vec::new();
    core::mem::swap(w, &mut sink);
    let mut writer = BitWriter::new(sink);
    let ghost handed_back = *final(arena);
    let mut walker = Splayable::new(arena);
    let mut more = true;
    while more
        invariant
            walker.wf(),
            walker.path().len() == 0,
            *final(walker.arena) == handed_back,
            writer.wf(),
            writer.bits() == unpack(w0) + done,
            done + encode(walker.tree(), parse::<T, R>(r.remaining())) == encode(t0, all),
            final_tree(walker.tree(), parse::<T, R>(r.remaining())) == final_tree(t0, all),
            r.remaining().len() as int % symbol_width::<T>() == source.len() as int
                % symbol_width::<T>(),
            !more ==> r.remaining().len() == 0,
        decreases r.remaining().len() + (if more { 1int } else { 0int }),
    {
        let ghost tree = walker.tree();
        let ghost rem = r.remaining();
        match r.read_one() {
            Err(e) => {
                proof {
                    lemma_coding_end::<T, R>(tree, rem, done);
                    writer.lemma_packed();
                }
                let mut bytes = writer.into_inner();
                core::mem::swap(w, &mut bytes);
                return Err(e);
            },
            Ok(None) => {
                more = false;
            },
            Ok(Some(symbol)) => {
                proof {
                    lemma_coding_step::<T, R>(tree, rem, done);
                }
                encode_symbol(&mut walker, &mut writer, symbol);
                proof {
                    assert(unpack(w0) + done + code_of(tree, symbol) =~= unpack(w0) + (done
                        + code_of(tree, symbol)));
                    done = done + code_of(tree, symbol);
                }
            },
        }
    }
    proof {
        T::lemma_alphabet_size();
        lemma_coding_end::<T, R>(walker.tree(), r.remaining(), done);
    }
    write_padding(&mut walker, &mut writer);
    let _ = writer.flush();
    let mut bytes = writer.into_inner();
    core::mem::swap(w, &mut bytes);
    Ok(())
}

/// Decompresses the stream `r`, coding from the tree in `arena`, and hands the symbols to
/// `w`: each bit is one step down the tree, and each leaf met is a symbol. The bits after the
/// last leaf, which end short of a leaf, stand for nothing.
#[verifier::loop_isolation(false)]
pub fn decompress_raw<T: Symbol, A: NodeArena<T>, W: SymbolWrite<T>>(arena: &mut A, r: &[u8], w: &mut W) -> (res: Result<(), Error>)
    requires
        old(arena).model().consistent(),
    ensures
        res is Ok,
        final(w).written() == old(w).written() + decompressed::<T, W>(old(arena).model(), r@),
        final(arena).model() == decode_tree(
            old(arena).model(),
            Seq::empty(),
            NodeRef::Internal(old(arena).model().root),
            unpack(r@),
        ),
{
    let ghost t0 = arena.model();
    let ghost w0 = w.written();
    let ghost top = NodeRef::Internal(t0.root);
    let ghost all = unpack(r@);
    let ghost mut out: Seq<T> = Seq::empty();
    let ghost handed_back = *final(arena);
    let mut walker = Splayable::new(arena);
    let mut reader = BitReader::new(r);
    proof {
        assert(w0 + render::<T, W>(out) =~= w0);
        assert(out + decoded(t0, all) =~= decoded(t0, all));
    }
    loop
        invariant
            walker.wf(),
            walker.current() is Internal,
            *final(walker.arena) == handed_back,
            reader.wf(),
            w.written() == w0 + render::<T, W>(out),
            out + decode(walker.tree(), walker.path(), walker.current(), reader.remaining())
                == decoded(t0, all),
            decode_tree(walker.tree(), walker.path(), walker.current(), reader.remaining())
                == decode_tree(t0, Seq::empty(), top, all),
        decreases reader.remaining().len(),
    {
        let ghost tree = walker.tree();
        let ghost path = walker.path();
        let ghost bits = reader.remaining();
        let bit = match reader.read_bit() {
            Ok(b) => b,
            Err(e) => {
                proof {
                    assert(out + Seq::<T>::empty() =~= out);
                }
                match e.kind() {
                    ErrorKind::UnexpectedEof => {
                        return w.flush();
                    },
                }
            },
        };
        let ghost here = walker.current()->Internal_0;
        let ghost node = walker.current();
        let dir = Direction::from_bit(bit);
        walker.go(dir);
        proof {
            assert(bits.len() > 0 && bits[0] == bit);
            assert(node == NodeRef::Internal(here));
            assert(walker.current() == tree.at(here).child(dir));
            assert(walker.path() == path.push((here, dir)));
            match walker.current() {
                NodeRef::Leaf(s) => {
                    assert(decode(tree, path, node, bits) == seq![s] + decode(
                        splay(tree, path, here),
                        Seq::empty(),
                        NodeRef::Internal(here),
                        bits.skip(1),
                    ));
                    assert(decode_tree(tree, path, node, bits) == decode_tree(
                        splay(tree, path, here),
                        Seq::empty(),
                        NodeRef::Internal(here),
                        bits.skip(1),
                    ));
                },
                NodeRef::Internal(c) => {
                    assert(decode(tree, path, node, bits) == decode(
                        tree,
                        path.push((here, dir)),
                        NodeRef::Internal(c),
                        bits.skip(1),
                    ));
                    assert(decode_tree(tree, path, node, bits) == decode_tree(
                        tree,
                        path.push((here, dir)),
                        NodeRef::Internal(c),
                        bits.skip(1),
                    ));
                },
            }
        }
        if walker.is_leaf() {
            let symbol = walker.current_value();
            let _ = w.write_one(symbol);
            proof {
                assert(walker.path().drop_last() =~= path);
                assert(walker.path().last().0 == here);
                assert(out.push(symbol).drop_last() =~= out);
                assert(w0 + render::<T, W>(out) + W::bytes_of(symbol) =~= w0 + render::<T, W>(
                    out.push(symbol),
                ));
                assert(out + (seq![symbol] + decode(
                    splay(tree, path, here),
                    Seq::empty(),
                    NodeRef::Internal(here),
                    bits.skip(1),
                )) =~= out.push(symbol) + decode(
                    splay(tree, path, here),
                    Seq::empty(),
                    NodeRef::Internal(here),
                    bits.skip(1),
                ));
                out = out.push(symbol);
            }
            walker.splay_parent_of_leaf();
            assert(walker.path() =~= Seq::<Step<T>>::empty());
        }
    }
}

/// Compresses `r` as a stream of symbols of the given flavor, and appends the result to `w`.
/// Fails where `r` ends within a symbol.
pub fn compress(flavor: Flavor, r: &[u8], w: &mut Vec<u8>) -> (res: Result<(), Error>)
    ensures
        match res {
            Ok(()) => flavor.accepts(r@) && final(w)@ == old(w)@ + flavor.compressed(r@),
            Err(e) => {
                &&& !flavor.accepts(r@)
                &&& e.kind() == ErrorKind::UnexpectedEof
                &&& final(w)@ == old(w)@ + flavor.compressed_part(r@)
            },
        },
{
    match flavor {
        Flavor::Symbol8 => compress8(r, w),
        Flavor::Symbol16BE => compress16be(r, w),
        Flavor::Symbol16LE => compress16le(r, w),
    }
}

/// Compresses `r` as a stream of bytes, and appends the result to `w`.
pub fn compress8(r: &[u8], w: &mut Vec<u8>) -> (res: Result<(), Error>)
    ensures
        res is Ok,
        final(w)@ == old(w)@ + Flavor::Symbol8.compressed(r@),
{
    let mut arena = Arena8::new_uniform();
    let mut source = SymbolRead8(r);
    compress_raw(&mut arena, &mut source, w)
}

/// Compresses `r` as a stream of 16-bit words, upper byte first, and appends the result to
/// `w`. Fails where `r` has an odd number of bytes.
pub fn compress16be(r: &[u8], w: &mut Vec<u8>) -> (res: Result<(), Error>)
    ensures
        match res {
            Ok(()) => r@.len() % 2 == 0 && final(w)@ == old(w)@ + Flavor::Symbol16BE.compressed(r@),
            Err(e) => {
                &&& r@.len() % 2 != 0
                &&& e.kind() == ErrorKind::UnexpectedEof
                &&& final(w)@ == old(w)@ + Flavor::Symbol16BE.compressed_part(r@)
            },
        },
{
    let mut arena = Arena16::new_uniform();
    let mut source = SymbolRead16BE(r);
    compress_raw(&mut arena, &mut source, w)
}

/// Compresses `r` as a stream of 16-bit words, lower byte first, and appends the result to
/// `w`. Fails where `r` has an odd number of bytes.
pub fn compress16le(r: &[u8], w: &mut Vec<u8>) -> (res: Result<(), Error>)
    ensures
        match res {
            Ok(()) => r@.len() % 2 == 0 && final(w)@ == old(w)@ + Flavor::Symbol16LE.compressed(r@),
            Err(e) => {
                &&& r@.len() % 2 != 0
                &&& e.kind() == ErrorKind::UnexpectedEof
                &&& final(w)@ == old(w)@ + Flavor::Symbol16LE.compressed_part(r@)
            },
        },
{
    let mut arena = Arena16::new_uniform();
    let mut source = SymbolRead16LE(r);
    compress_raw(&mut arena, &mut source, w)
}

/// Decompresses the stream `r` of symbols of the given flavor, and appends the result to `w`.
pub fn decompress(flavor: Flavor, r: &[u8], w: &mut Vec<u8>) -> (res: Result<(), Error>)
    ensures
        res is Ok,
        final(w)@ == old(w)@ + flavor.decompressed(r@),
{
    match flavor {
        Flavor::Symbol8 => decompress8(r, w),
        Flavor::Symbol16BE => decompress16be(r, w),
        Flavor::Symbol16LE => decompress16le(r, w),
    }
}

/// Decompresses the stream `r` of bytes, and appends the result to `w`.
pub fn decompress8(r: &[u8], w: &mut Vec<u8>) -> (res: Result<(), Error>)
    ensures
        res is Ok,
        final(w)@ == old(w)@ + Flavor::Symbol8.decompressed(r@),
{
    let mut arena = Arena8::new_uniform();
    let mut sink = SymbolWrite8(Vec::new());
    core::mem::swap(w, &mut sink.0);
    let res = decompress_raw(&mut arena, r, &mut sink);
    core::mem::swap(w, &mut sink.0);
    res
}

/// Decompresses the stream `r` of 16-bit words, and appends them to `w`, upper byte first.
pub fn decompress16be(r: &[u8], w: &mut Vec<u8>) -> (res: Result<(), Error>)
    ensures
        res is Ok,
        final(w)@ == old(w)@ + Flavor::Symbol16BE.decompressed(r@),
{
    let mut arena = Arena16::new_uniform();
    let mut sink = SymbolWrite16BE(Vec::new());
    core::mem::swap(w, &mut sink.0);
    let res = decompress_raw(&mut arena, r, &mut sink);
    core::mem::swap(w, &mut sink.0);
    res
}

/// Decompresses the stream `r` of 16-bit words, and appends them to `w`, lower byte first.
pub fn decompress16le(r: &[u8], w: &mut Vec<u8>) -> (res: Result<(), Error>)
    ensures
        res is Ok,
        final(w)@ == old(w)@ + Flavor::Symbol16LE.decompressed(r@),
{
    let mut arena = Arena16::new_uniform();
    let mut sink = SymbolWrite16LE(Vec::new());
    core::mem::swap(w, &mut sink.0);
    let res = decompress_raw(&mut arena, r, &mut sink);
    core::mem::swap(w, &mut sink.0);
    res
}

} // verus!
