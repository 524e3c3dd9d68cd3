//! The checksum of a build: the final digest of everything that goes into
//! it, rendered as text.

use crate::combine::{combine_digests, final_digest, lemma_hash_input_ignores_order};
use crate::encode::{encode_digest, encoded};
use crate::opts::Opts;
use crate::order::chunks_of;
use vstd::prelude::*;
use vstd::seq_lib::lemma_multiset_commutative;
use vstd::utf8::encode_utf8;

verus! {

/// Everything that is hashed for one build: the digest of each dependency,
/// the bytes of each extra string, and the bytes of the instruction file as
/// one more item.
pub open spec fn checksum_items(
    dockerfile_content: Seq<char>,
    path_digests: Seq<Seq<u8>>,
    extra_strings: Seq<Seq<char>>,
) -> Seq<Seq<u8>> {
    path_digests + extra_strings.map_values(|s: Seq<char>| encode_utf8(s)) + seq![
        encode_utf8(dockerfile_content),
    ]
}

/// The checksum of a build as text.
pub open spec fn checksum_text(
    dockerfile_content: Seq<char>,
    path_digests: Seq<Seq<u8>>,
    extra_strings: Seq<Seq<char>>,
    hex: bool,
) -> Seq<char> {
    encoded(final_digest(checksum_items(dockerfile_content, path_digests, extra_strings)), hex)
}

/// The checksum of a build.
///
/// `dockerfile_content` is the text of the instruction file and
/// `path_digests` holds the recursive digest of each dependency, those that
/// the instruction file names and the extra paths of `opts`, in any order.
/// Of `opts` the extra strings and the choice of encoding are read.
pub fn hash(dockerfile_content: &str, path_digests: Vec<Vec<u8>>, opts: &Opts) -> (checksum:
    String)
    ensures
        checksum@ == checksum_text(
            dockerfile_content@,
            chunks_of(path_digests@),
            opts.extra_strings(),
            opts.hex,
        ),
{
    let ghost digests = chunks_of(path_digests@);
    let ghost extras = opts.extra_strings().map_values(|s: Seq<char>| encode_utf8(s));
    let mut items = path_digests;
    let mut i: usize = 0;
    while i < opts.extra_string.len()
        invariant
            i <= opts.extra_string.len(),
            extras == opts.extra_strings().map_values(|s: Seq<char>| encode_utf8(s)),
            chunks_of(items@) == digests + extras.take(i as int),
        decreases opts.extra_string.len() - i,
    {
        let ghost before = chunks_of(items@);
        items.push(opts.extra_string[i].as_str().as_bytes_vec());
        proof {
            assert(chunks_of(items@) =~= before.push(extras[i as int]));
            assert(extras.take(i + 1) =~= extras.take(i as int).push(extras[i as int]));
            assert(chunks_of(items@) =~= digests + extras.take(i + 1));
        }
        i += 1;
    }
    let ghost before = chunks_of(items@);
    items.push(dockerfile_content.as_bytes_vec());
    proof {
        assert(extras.take(i as int) =~= extras);
        assert(chunks_of(items@) =~= before.push(encode_utf8(dockerfile_content@)));
        assert(chunks_of(items@) =~= checksum_items(
            dockerfile_content@,
            digests,
            opts.extra_strings(),
        ));
    }
    let digest = combine_digests(items);
    encode_digest(digest.as_slice(), opts.hex)
}

/// The order in which the dependencies were found, and so the order of
/// their digests, does not change the checksum.
pub proof fn lemma_checksum_ignores_order(
    dockerfile_content: Seq<char>,
    path_digests: Seq<Seq<u8>>,
    reordered: Seq<Seq<u8>>,
    extra_strings: Seq<Seq<char>>,
    hex: bool,
)
    requires
        path_digests.to_multiset() == reordered.to_multiset(),
    ensures
        checksum_text(dockerfile_content, path_digests, extra_strings, hex) == checksum_text(
            dockerfile_content,
            reordered,
            extra_strings,
            hex,
        ),
{
    let rest = extra_strings.map_values(|s: Seq<char>| encode_utf8(s)) + seq![
        encode_utf8(dockerfile_content),
    ];
    let a = checksum_items(dockerfile_content, path_digests, extra_strings);
    let b = checksum_items(dockerfile_content, reordered, extra_strings);
    assert(a =~= path_digests + rest);
    assert(b =~= reordered + rest);
    lemma_multiset_commutative(path_digests, rest);
    lemma_multiset_commutative(reordered, rest);
    lemma_hash_input_ignores_order(a, b);
}

} // verus!
