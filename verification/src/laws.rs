use crate::bits::{lemma_unpack_pack, unpack};
use crate::code::{
    encode, final_tree, lemma_ambiguous_tail, lemma_decoded_padded, lemma_final_tree_consistent,
    lemma_padding, pad_len, padded, padding, stays_internal,
};
use crate::common::{NodeRef, Symbol};
use crate::shape::Tree;
use crate::stream::{compressed, decompressed, lemma_render_parse, mirrors, parse};
use crate::symbol::{
    symbol_width, SymbolRead, SymbolRead16BE, SymbolRead16LE, SymbolRead8, SymbolWrite,
    SymbolWrite16BE, SymbolWrite16LE, SymbolWrite8,
};
use crate::uniform::{lemma_uniform_consistent, lemma_uniform_is_uniform, uniform_tree};
use crate::Flavor;
use vstd::prelude::*;

verus! {

/// The bits of `y` are the codes of the symbols of `x`, then `tail`, and `tail` meets no
/// leaf on its way down from the root of the tree that the symbols leave.
pub open spec fn codes_then<T: Symbol, R: SymbolRead<T>>(tree: Tree<T>, y: Seq<u8>, x: Seq<u8>, tail: Seq<bool>) -> bool {
    let syms = parse::<T, R>(x);
    let end = final_tree(tree, syms);
    &&& unpack(y) == encode(tree, syms) + tail
    &&& stays_internal(end, NodeRef::Internal(end.root), tail)
}

impl Flavor {
    /// The bits of `y` are the codes of the symbols of `x`, then `tail`, and `tail` meets
    /// no leaf: `y` is `x` compressed, with `tail` for its padding.
    pub open spec fn codes_then(self, y: Seq<u8>, x: Seq<u8>, tail: Seq<bool>) -> bool {
        match self {
            Flavor::Symbol8 => codes_then::<u8, SymbolRead8>(uniform_tree(), y, x, tail),
            Flavor::Symbol16BE => codes_then::<u16, SymbolRead16BE>(uniform_tree(), y, x, tail),
            Flavor::Symbol16LE => codes_then::<u16, SymbolRead16LE>(uniform_tree(), y, x, tail),
        }
    }
}

/// The byte writer writes each symbol as the byte from which the byte reader reads it.
pub proof fn lemma_mirrors8()
    ensures
        mirrors::<u8, SymbolRead8, SymbolWrite8>(),
{
    assert forall|chunk: Seq<u8>| chunk.len() >= symbol_width::<u8>() implies #[trigger] SymbolWrite8::bytes_of(
        SymbolRead8::symbol_of(chunk),
    ) == chunk.take(symbol_width::<u8>()) by {
        assert(seq![chunk[0]] =~= chunk.take(1));
    }
}

/// The two 16-bit codecs with the upper byte first mirror each other.
pub proof fn lemma_mirrors16be()
    ensures
        mirrors::<u16, SymbolRead16BE, SymbolWrite16BE>(),
{
    assert forall|chunk: Seq<u8>| chunk.len() >= symbol_width::<u16>() implies #[trigger] SymbolWrite16BE::bytes_of(
        SymbolRead16BE::symbol_of(chunk),
    ) == chunk.take(symbol_width::<u16>()) by {
        assert(SymbolWrite16BE::bytes_of(SymbolRead16BE::symbol_of(chunk)) =~= chunk.take(2));
    }
}

/// The two 16-bit codecs with the lower byte first mirror each other.
pub proof fn lemma_mirrors16le()
    ensures
        mirrors::<u16, SymbolRead16LE, SymbolWrite16LE>(),
{
    assert forall|chunk: Seq<u8>| chunk.len() >= symbol_width::<u16>() implies #[trigger] SymbolWrite16LE::bytes_of(
        SymbolRead16LE::symbol_of(chunk),
    ) == chunk.take(symbol_width::<u16>()) by {
        assert(SymbolWrite16LE::bytes_of(SymbolRead16LE::symbol_of(chunk)) =~= chunk.take(2));
    }
}

/// A stream of the codes of `x` and a tail that meets no leaf decompresses to `x`, for any
/// consistent tree to start from and any reader and writer that mirror each other.
pub proof fn lemma_tail_from<T: Symbol, R: SymbolRead<T>, W: SymbolWrite<T>>(tree: Tree<T>, y: Seq<u8>, x: Seq<u8>, tail: Seq<bool>)
    requires
        tree.consistent(),
        mirrors::<T, R, W>(),
        x.len() as int % symbol_width::<T>() == 0,
        codes_then::<T, R>(tree, y, x, tail),
    ensures
        decompressed::<T, W>(tree, y) == x,
{
    lemma_ambiguous_tail(tree, parse::<T, R>(x), tail);
    lemma_render_parse::<T, R, W>(x);
}

/// The compressed form of `x` is the codes of `x` and a tail that meets no leaf.
pub proof fn lemma_compressed_codes_then<T: Symbol, R: SymbolRead<T>>(tree: Tree<T>, x: Seq<u8>) -> (tail: Seq<bool>)
    requires
        tree.consistent(),
    ensures
        codes_then::<T, R>(tree, compressed::<T, R>(tree, x), x, tail),
        tail.len() < 8,
{
    let syms = parse::<T, R>(x);
    let bits = encode(tree, syms);
    let end = final_tree(tree, syms);
    let k = pad_len(bits.len() as int);
    lemma_decoded_padded(tree, syms);
    lemma_unpack_pack(padded(tree, syms));
    lemma_final_tree_consistent(tree, syms);
    T::lemma_alphabet_size();
    if k == 0 {
        assert(bits + Seq::<bool>::empty() =~= bits);
        Seq::empty()
    } else {
        lemma_padding(end, k as nat);
        padding(end, k as nat)
    }
}

/// The round trip, for any consistent tree to start from and any reader and writer that
/// mirror each other.
pub proof fn lemma_roundtrip_from<T: Symbol, R: SymbolRead<T>, W: SymbolWrite<T>>(tree: Tree<T>, x: Seq<u8>)
    requires
        tree.consistent(),
        mirrors::<T, R, W>(),
        x.len() as int % symbol_width::<T>() == 0,
    ensures
        decompressed::<T, W>(tree, compressed::<T, R>(tree, x)) == x,
{
    let tail = lemma_compressed_codes_then::<T, R>(tree, x);
    lemma_tail_from::<T, R, W>(tree, compressed::<T, R>(tree, x), x, tail);
}

/// The round trip: whatever bytes are compressed, decompressing the result gives them back.
/// It holds of every byte string that is made of whole symbols, the only ones that can be
/// compressed.
pub proof fn lemma_roundtrip(flavor: Flavor, x: Seq<u8>)
    requires
        flavor.accepts(x),
    ensures
        flavor.decompressed(flavor.compressed(x)) == x,
{
    match flavor {
        Flavor::Symbol8 => {
            lemma_uniform_is_uniform::<u8>();
            lemma_uniform_consistent(uniform_tree::<u8>());
            lemma_mirrors8();
            lemma_roundtrip_from::<u8, SymbolRead8, SymbolWrite8>(uniform_tree(), x);
        },
        Flavor::Symbol16BE => {
            lemma_uniform_is_uniform::<u16>();
            lemma_uniform_consistent(uniform_tree::<u16>());
            lemma_mirrors16be();
            lemma_roundtrip_from::<u16, SymbolRead16BE, SymbolWrite16BE>(uniform_tree(), x);
        },
        Flavor::Symbol16LE => {
            lemma_uniform_is_uniform::<u16>();
            lemma_uniform_consistent(uniform_tree::<u16>());
            lemma_mirrors16le();
            lemma_roundtrip_from::<u16, SymbolRead16LE, SymbolWrite16LE>(uniform_tree(), x);
        },
    }
}

/// The ambiguous tail: a stream that holds the codes of `x` and then any bits that meet
/// no leaf decompresses to `x`. The padding that the compressor writes is one such tail,
/// and every other one gives the same plain bytes.
pub proof fn lemma_any_padding(flavor: Flavor, x: Seq<u8>, y: Seq<u8>, tail: Seq<bool>)
    requires
        flavor.accepts(x),
        flavor.codes_then(y, x, tail),
    ensures
        flavor.decompressed(y) == x,
{
    match flavor {
        Flavor::Symbol8 => {
            lemma_uniform_is_uniform::<u8>();
            lemma_uniform_consistent(uniform_tree::<u8>());
            lemma_mirrors8();
            lemma_tail_from::<u8, SymbolRead8, SymbolWrite8>(uniform_tree(), y, x, tail);
        },
        Flavor::Symbol16BE => {
            lemma_uniform_is_uniform::<u16>();
            lemma_uniform_consistent(uniform_tree::<u16>());
            lemma_mirrors16be();
            lemma_tail_from::<u16, SymbolRead16BE, SymbolWrite16BE>(uniform_tree(), y, x, tail);
        },
        Flavor::Symbol16LE => {
            lemma_uniform_is_uniform::<u16>();
            lemma_uniform_consistent(uniform_tree::<u16>());
            lemma_mirrors16le();
            lemma_tail_from::<u16, SymbolRead16LE, SymbolWrite16LE>(uniform_tree(), y, x, tail);
        },
    }
}

/// What the compressor writes is the codes and a tail of fewer than eight bits that meets
/// no leaf.
pub proof fn lemma_compressed_is_padded(flavor: Flavor, x: Seq<u8>) -> (tail: Seq<bool>)
    ensures
        flavor.codes_then(flavor.compressed(x), x, tail),
        tail.len() < 8,
{
    match flavor {
        Flavor::Symbol8 => {
            lemma_uniform_is_uniform::<u8>();
            lemma_uniform_consistent(uniform_tree::<u8>());
            lemma_compressed_codes_then::<u8, SymbolRead8>(uniform_tree(), x)
        },
        Flavor::Symbol16BE => {
            lemma_uniform_is_uniform::<u16>();
            lemma_uniform_consistent(uniform_tree::<u16>());
            lemma_compressed_codes_then::<u16, SymbolRead16BE>(uniform_tree(), x)
        },
        Flavor::Symbol16LE => {
            lemma_uniform_is_uniform::<u16>();
            lemma_uniform_consistent(uniform_tree::<u16>());
            lemma_compressed_codes_then::<u16, SymbolRead16LE>(uniform_tree(), x)
        },
    }
}

} // verus!
