use crate::bits::{byte_of, lemma_pack_unpack, pack, unpack};
use crate::code::{after, code_of, decoded, encode, final_tree, pad_len, padded, padding};
use crate::common::Symbol;
use crate::shape::Tree;
use crate::symbol::{symbol_width, SymbolRead, SymbolWrite};
use vstd::prelude::*;

verus! {

/// The symbols that `bytes` hold, as `R` reads them. Bytes left over at the end, fewer
/// than a symbol has, hold none.
pub open spec fn parse<T: Symbol, R: SymbolRead<T>>(bytes: Seq<u8>) -> Seq<T>
    decreases bytes.len(),
{
    if symbol_width::<T>() <= 0 || bytes.len() < symbol_width::<T>() {
        Seq::empty()
    } else {
        seq![R::symbol_of(bytes)] + parse::<T, R>(bytes.skip(symbol_width::<T>()))
    }
}

/// The bytes that hold `syms`, as `W` writes them.
pub open spec fn render<T: Symbol, W: SymbolWrite<T>>(syms: Seq<T>) -> Seq<u8>
    decreases syms.len(),
{
    if syms.len() == 0 {
        Seq::empty()
    } else {
        render::<T, W>(syms.drop_last()) + W::bytes_of(syms.last())
    }
}

/// The compressed form of `bytes`, read by `R`, where the coding starts from `tree`.
pub open spec fn compressed<T: Symbol, R: SymbolRead<T>>(tree: Tree<T>, bytes: Seq<u8>) -> Seq<u8> {
    pack(padded(tree, parse::<T, R>(bytes)))
}

/// What is written of a stream that ends within a symbol: the full bytes of the codes of
/// the whole symbols.
pub open spec fn compressed_part<T: Symbol, R: SymbolRead<T>>(tree: Tree<T>, bytes: Seq<u8>) -> Seq<u8> {
    pack(encode(tree, parse::<T, R>(bytes)))
}

/// The plain form of the compressed `bytes`, written by `W`, where the coding starts from
/// `tree`.
pub open spec fn decompressed<T: Symbol, W: SymbolWrite<T>>(tree: Tree<T>, bytes: Seq<u8>) -> Seq<u8> {
    render::<T, W>(decoded(tree, unpack(bytes)))
}

/// Bits packed behind whole bytes: the bytes stay, and the bits are packed by themselves.
pub proof fn lemma_pack_prefix(bytes: Seq<u8>, bits: Seq<bool>)
    ensures
        pack(unpack(bytes) + bits) == bytes + pack(bits),
{
    let whole = unpack(bytes) + bits;
    let a = pack(whole);
    let b = bytes + pack(bits);
    let n = bytes.len() as int;
    assert(a.len() == b.len());
    lemma_pack_unpack(bytes);
    assert forall|k: int| 0 <= k < a.len() implies a[k] == b[k] by {
        if k < n {
            assert(whole.subrange(8 * k, 8 * k + 8) =~= unpack(bytes).subrange(8 * k, 8 * k + 8));
            assert(pack(unpack(bytes))[k] == byte_of(unpack(bytes).subrange(8 * k, 8 * k + 8)));
        } else {
            assert(whole.subrange(8 * k, 8 * k + 8) =~= bits.subrange(8 * (k - n), 8 * (k - n) + 8));
        }
    }
    assert(a =~= b);
}

/// The bytes of a symbol and then of more symbols are the bytes of all of them.
pub proof fn lemma_render_first<T: Symbol, W: SymbolWrite<T>>(s: T, rest: Seq<T>)
    ensures
        render::<T, W>(seq![s] + rest) == W::bytes_of(s) + render::<T, W>(rest),
    decreases rest.len(),
{
    let all = seq![s] + rest;
    if rest.len() == 0 {
        assert(all.drop_last() =~= Seq::<T>::empty());
        assert(all.last() == s);
        assert(render::<T, W>(all.drop_last()) =~= Seq::<u8>::empty());
        assert(render::<T, W>(all) =~= W::bytes_of(s));
        assert(W::bytes_of(s) + render::<T, W>(rest) =~= W::bytes_of(s));
    } else {
        assert(all.drop_last() =~= seq![s] + rest.drop_last());
        assert(all.last() == rest.last());
        lemma_render_first::<T, W>(s, rest.drop_last());
        assert((W::bytes_of(s) + render::<T, W>(rest.drop_last())) + W::bytes_of(rest.last())
            =~= W::bytes_of(s) + (render::<T, W>(rest.drop_last()) + W::bytes_of(rest.last())));
    }
}

/// `W` writes each symbol as the bytes from which `R` reads it.
pub open spec fn mirrors<T: Symbol, R: SymbolRead<T>, W: SymbolWrite<T>>() -> bool {
    forall|chunk: Seq<u8>|
        chunk.len() >= symbol_width::<T>() ==> #[trigger] W::bytes_of(R::symbol_of(chunk))
            == chunk.take(symbol_width::<T>())
}

/// Writing what was read gives the bytes back, where they are whole symbols.
pub proof fn lemma_render_parse<T: Symbol, R: SymbolRead<T>, W: SymbolWrite<T>>(bytes: Seq<u8>)
    requires
        mirrors::<T, R, W>(),
        bytes.len() as int % symbol_width::<T>() == 0,
    ensures
        render::<T, W>(parse::<T, R>(bytes)) == bytes,
    decreases bytes.len(),
{
    T::lemma_alphabet_size();
    let w = symbol_width::<T>();
    if bytes.len() < w {
        assert(bytes.len() == 0) by {
            vstd::arithmetic::div_mod::lemma_small_mod(bytes.len(), w as nat);
        }
        assert(bytes =~= Seq::<u8>::empty());
    } else {
        let rest = bytes.skip(w);
        assert(rest.len() as int % w == 0) by {
            vstd::arithmetic::div_mod::lemma_mod_sub_multiples_vanish(bytes.len() as int, w);
        }
        lemma_render_parse::<T, R, W>(rest);
        lemma_render_first::<T, W>(R::symbol_of(bytes), parse::<T, R>(rest));
        assert(bytes.take(w) + rest =~= bytes);
    }
}

/// Coding the symbols of `rem` is coding the first of them, and then the others in the
/// tree that the first has left.
pub proof fn lemma_coding_step<T: Symbol, R: SymbolRead<T>>(tree: Tree<T>, rem: Seq<u8>, done: Seq<bool>)
    requires
        rem.len() >= symbol_width::<T>(),
    ensures
        ({
            let s = R::symbol_of(rem);
            let rest = rem.skip(symbol_width::<T>());
            &&& done + encode(tree, parse::<T, R>(rem)) == (done + code_of(tree, s)) + encode(
                after(tree, s),
                parse::<T, R>(rest),
            )
            &&& final_tree(tree, parse::<T, R>(rem)) == final_tree(
                after(tree, s),
                parse::<T, R>(rest),
            )
            &&& rest.len() as int % symbol_width::<T>() == rem.len() as int % symbol_width::<T>()
        }),
{
    T::lemma_alphabet_size();
    let width = symbol_width::<T>();
    let s = R::symbol_of(rem);
    let rest = parse::<T, R>(rem.skip(width));
    assert(parse::<T, R>(rem) == seq![s] + rest);
    assert((seq![s] + rest).skip(1) =~= rest);
    assert(done + (code_of(tree, s) + encode(after(tree, s), rest)) =~= (done + code_of(tree, s))
        + encode(after(tree, s), rest));
    vstd::arithmetic::div_mod::lemma_mod_sub_multiples_vanish(rem.len() as int, width);
}

/// Bytes that are fewer than a symbol has hold no symbol, and are whole symbols only where
/// there is none of them.
pub proof fn lemma_coding_end<T: Symbol, R: SymbolRead<T>>(tree: Tree<T>, rem: Seq<u8>, done: Seq<bool>)
    requires
        rem.len() < symbol_width::<T>(),
    ensures
        done + encode(tree, parse::<T, R>(rem)) == done,
        final_tree(tree, parse::<T, R>(rem)) == tree,
        (rem.len() as int % symbol_width::<T>() == 0) == (rem.len() == 0),
{
    T::lemma_alphabet_size();
    assert(parse::<T, R>(rem) =~= Seq::<T>::empty());
    assert(done + Seq::<bool>::empty() =~= done);
    vstd::arithmetic::div_mod::lemma_small_mod(rem.len(), symbol_width::<T>() as nat);
}

/// The stream that follows the bytes `before`: with the codes of the symbols of `bytes`
/// written behind them, the padding asked for is that of the codes alone, and with it
/// written too, the bytes are `before` and then the compressed form.
pub proof fn lemma_stream_end<T: Symbol, R: SymbolRead<T>>(tree: Tree<T>, bytes: Seq<u8>, before: Seq<u8>)
    ensures
        ({
            let coded = encode(tree, parse::<T, R>(bytes));
            let sofar = unpack(before) + coded;
            let k = pad_len(sofar.len() as int);
            let tail = if k == 0 {
                Seq::<bool>::empty()
            } else {
                padding(final_tree(tree, parse::<T, R>(bytes)), k as nat)
            };
            &&& pack(sofar + tail) == before + compressed::<T, R>(tree, bytes)
            &&& pack(sofar) == before + compressed_part::<T, R>(tree, bytes)
        }),
{
    let syms = parse::<T, R>(bytes);
    let coded = encode(tree, syms);
    let sofar = unpack(before) + coded;
    let k = pad_len(sofar.len() as int);
    assert(k == pad_len(coded.len() as int));
    let tail = if k == 0 {
        Seq::<bool>::empty()
    } else {
        padding(final_tree(tree, syms), k as nat)
    };
    assert(coded + Seq::<bool>::empty() =~= coded);
    assert(padded(tree, syms) == coded + tail);
    assert(sofar + tail =~= unpack(before) + (coded + tail));
    lemma_pack_prefix(before, coded + tail);
    lemma_pack_prefix(before, coded);
}

} // verus!
