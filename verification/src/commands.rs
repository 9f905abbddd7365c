//! The object-reading commands: printing an object's payload and listing
//! a tree, plus the commit builder and the parsing half of a fetch.
use vstd::prelude::*;
use vstd::string::{StrSliceExecFns, StringExecFns};
use vstd::utf8::{decode_utf8, valid_utf8};

use crate::errors::GitError;
use crate::git_object::{
    can_resolve, header_parsed, identify_header, match_count, nodes_match, object_header_parsed,
    read_tree, reader, resolves_to, tree_parse, ObjectType, Store, TreeNode,
};
use crate::hashing::hex_of;
use crate::reader_utils::{first_nul_at, read_n_bytes, ByteReader};
use crate::text::{dec_chars, dec_val, u64_to_string};

verus! {

/// `s` left-padded with zeros to six chars.
pub open spec fn pad6(s: Seq<char>) -> Seq<char> {
    if s.len() >= 6 {
        s
    } else {
        Seq::new((6 - s.len()) as nat, |i: int| '0') + s
    }
}

/// One line of a tree listing: the name alone, or
/// `<6-digit-mode> <kind> <hex-identity>    <name>`.
pub open spec fn tree_line(mode: nat, name: Seq<char>, id: Seq<u8>, name_only: bool) -> Seq<char> {
    if name_only {
        name + seq!['\n']
    } else {
        pad6(dec_chars(mode)) + seq![' '] + (if mode == 40000 {
            seq!['t', 'r', 'e', 'e']
        } else {
            seq!['b', 'l', 'o', 'b']
        }) + seq![' '] + hex_of(id) + seq![' ', ' ', ' ', ' '] + name + seq!['\n']
    }
}

/// The listing of a parsed tree, entry by entry.
pub open spec fn tree_listing(ents: Seq<(nat, Seq<char>, Seq<u8>)>, name_only: bool) -> Seq<char>
    decreases ents.len(),
{
    if ents.len() == 0 {
        Seq::empty()
    } else {
        tree_line(ents[0].0, ents[0].1, ents[0].2, name_only) + tree_listing(
            ents.drop_first(),
            name_only,
        )
    }
}

/// A listing grows line by line.
proof fn lemma_tree_listing_push(
    ents: Seq<(nat, Seq<char>, Seq<u8>)>,
    e: (nat, Seq<char>, Seq<u8>),
    name_only: bool,
)
    ensures
        tree_listing(ents.push(e), name_only) == tree_listing(ents, name_only) + tree_line(
            e.0,
            e.1,
            e.2,
            name_only,
        ),
    decreases ents.len(),
{
    if ents.len() == 0 {
        assert(ents.push(e)[0] == e);
        assert(ents.push(e).drop_first() =~= Seq::<(nat, Seq<char>, Seq<u8>)>::empty());
        assert(tree_listing(Seq::<(nat, Seq<char>, Seq<u8>)>::empty(), name_only)
            == Seq::<char>::empty());
        assert(tree_listing(ents.push(e), name_only) =~= tree_listing(ents, name_only) + tree_line(
            e.0,
            e.1,
            e.2,
            name_only,
        ));
    } else {
        assert(ents.push(e)[0] == ents[0]);
        assert(ents.push(e).drop_first() =~= ents.drop_first().push(e));
        lemma_tree_listing_push(ents.drop_first(), e, name_only);
        assert(tree_listing(ents.push(e), name_only) =~= tree_listing(ents, name_only) + tree_line(
            e.0,
            e.1,
            e.2,
            name_only,
        ));
    }
}

/// Renders parsed tree entries, one line each.
#[verifier::loop_isolation(false)]
#[verifier::rlimit(100)]
#[verifier::spinoff_prover]
pub fn stringify_tree(reader: &mut ByteReader, size: usize, name_only: bool) -> (r: Result<
    String,
    GitError,
>)
    ensures
        final(reader).data == old(reader).data,
        ({
            let region = old(reader).data@.subrange(old(reader).pos as int, old(reader).pos + size);
            match r {
                Ok(s) => {
                    &&& old(reader).pos + size <= old(reader).data@.len()
                    &&& (tree_parse(region) matches Some(ents) && s@ == tree_listing(
                        ents,
                        name_only,
                    ))
                },
                Err(e) => {
                    &&& e == GitError::Io || e == GitError::Decode
                    &&& old(reader).pos + size <= old(reader).data@.len() ==> tree_parse(region)
                        is None
                },
            }
        }),
{
    let nodes = read_tree(reader, size)?;
    let ghost ents = tree_parse(
        old(reader).data@.subrange(old(reader).pos as int, old(reader).pos + size),
    )->Some_0;
    let mut out = String::new();
    let mut j: usize = 0;
    proof {
        assert(ents.take(0) =~= Seq::<(nat, Seq<char>, Seq<u8>)>::empty());
    }
    while j < nodes.len()
        invariant
            j <= nodes@.len(),
            nodes_match(nodes@, ents),
            out@ == tree_listing(ents.take(j as int), name_only),
        decreases nodes@.len() - j,
    {
        let node = &nodes[j];
        let ghost e = ents[j as int];
        if name_only {
            out.append(node.name.as_str());
            out.append("\n");
            proof {
                reveal_strlit("\n");
                assert("\n"@ =~= seq!['\n']);
            }
        } else {
            let mode_str = u64_to_string(node.mode);
            let mode_len = mode_str.as_str().unicode_len();
            let mut pad: usize = 0;
            while pad + mode_len < 6
                invariant
                    mode_len == dec_chars(node.mode as nat).len(),
                    pad + mode_len <= 6 || pad == 0,
                    out@ == tree_listing(ents.take(j as int), name_only) + Seq::new(
                        pad as nat,
                        |i: int| '0',
                    ),
                decreases 6 - pad,
            {
                out.append("0");
                proof {
                    reveal_strlit("0");
                    assert("0"@ =~= seq!['0']);
                    assert(out@ =~= tree_listing(ents.take(j as int), name_only) + Seq::new(
                        (pad + 1) as nat,
                        |i: int| '0',
                    ));
                }
                pad = pad + 1;
            }
            out.append(mode_str.as_str());
            proof {
                assert(tree_listing(ents.take(j as int), name_only) + Seq::new(
                    pad as nat,
                    |i: int| '0',
                ) + dec_chars(node.mode as nat) =~= tree_listing(ents.take(j as int), name_only)
                    + pad6(dec_chars(node.mode as nat)));
            }
            if node.mode == 40000 {
                out.append(" tree ");
            } else {
                out.append(" blob ");
            }
            proof {
                reveal_strlit(" tree ");
                reveal_strlit(" blob ");
                if node.mode == 40000 {
                    assert(" tree "@ =~= seq![' '] + seq!['t', 'r', 'e', 'e'] + seq![' ']);
                } else {
                    assert(" blob "@ =~= seq![' '] + seq!['b', 'l', 'o', 'b'] + seq![' ']);
                }
            }
            out.append(node.hash.as_str());
            out.append("    ");
            out.append(node.name.as_str());
            out.append("\n");
            proof {
                reveal_strlit("    ");
                reveal_strlit("\n");
                assert("    "@ =~= seq![' ', ' ', ' ', ' ']);
                assert("\n"@ =~= seq!['\n']);
            }
        }
        proof {
            assert(out@ =~= tree_listing(ents.take(j as int), name_only) + tree_line(
                e.0,
                e.1,
                e.2,
                name_only,
            ));
            assert(ents.take(j + 1) =~= ents.take(j as int).push(e));
            lemma_tree_listing_push(ents.take(j as int), e, name_only);
        }
        j = j + 1;
    }
    proof {
        assert(ents.take(nodes@.len() as int) =~= ents);
    }
    Ok(out)
}

/// The object under `id` is a tree whose header ends at `k`, whose
/// payload is `n` bytes, and whose listing is `s`.
pub open spec fn listed_tree_at(
    store: Store,
    id: Seq<u8>,
    k: int,
    n: nat,
    s: Seq<char>,
    name_only: bool,
) -> bool {
    store.lookup(id) matches Some(d) && {
        &&& first_nul_at(d, 0, k)
        &&& valid_utf8(d.take(k))
        &&& header_parsed(decode_utf8(d.take(k)), ObjectType::Tree, n)
        &&& k + 1 + n <= d.len()
        &&& (tree_parse(d.subrange(k + 1, k + 1 + n)) matches Some(ents) && s == tree_listing(
            ents,
            name_only,
        ))
    }
}

/// `s` lists the tree that `name` abbreviates.
pub open spec fn ls_tree_output(store: Store, name: Seq<char>, s: Seq<char>, name_only: bool) -> bool {
    exists|id: Seq<u8>, k: int, n: nat|
        resolves_to(store, name, id) && #[trigger] listed_tree_at(store, id, k, n, s, name_only)
}

/// The object under `id` is a tree whose payload is present and
/// well-formed.
pub open spec fn listable_at(store: Store, id: Seq<u8>, k: int, n: nat) -> bool {
    store.lookup(id) matches Some(d) && {
        &&& first_nul_at(d, 0, k)
        &&& valid_utf8(d.take(k))
        &&& header_parsed(decode_utf8(d.take(k)), ObjectType::Tree, n)
        &&& k + 1 + n <= d.len()
        &&& tree_parse(d.subrange(k + 1, k + 1 + n)) is Some
    }
}

/// The object `name` abbreviates exists, is a tree, and can be listed.
pub open spec fn ls_tree_ok(store: Store, name: Seq<char>) -> bool {
    exists|id: Seq<u8>, k: int, n: nat|
        resolves_to(store, name, id) && #[trigger] listable_at(store, id, k, n)
}

/// Lists the tree object `object_name` abbreviates, one entry per line:
/// names only, or `<6-digit-mode> <kind> <hex-identity>    <name>`.
pub fn ls_tree(store: &Store, object_name: &String, name_only: bool) -> (r: Result<
    String,
    GitError,
>)
    requires
        store.wf(),
    ensures
        match r {
            Ok(s) => ls_tree_output(*store, object_name@, s@, name_only),
            Err(e) => {
                &&& e == GitError::Decode || e == GitError::NotFound || e == GitError::Ambiguous
                    || e == GitError::Io || e == GitError::WrongType
                &&& e == GitError::NotFound ==> object_name@.len() >= 2 && match_count(
                    store.ids(),
                    object_name@,
                ) == 0
                &&& e == GitError::Ambiguous ==> match_count(store.ids(), object_name@) >= 2
                &&& e == GitError::WrongType ==> !crate::git_object::stored_kind(
                    *store,
                    object_name@,
                    ObjectType::Tree,
                )
            },
        },
        r is Ok <==> ls_tree_ok(*store, object_name@),
        (exists|t: ObjectType| crate::git_object::stored_kind(*store, object_name@, t))
            && !crate::git_object::stored_kind(*store, object_name@, ObjectType::Tree) ==> r
            == Err::<String, GitError>(GitError::WrongType),
{
    let mut rd = match reader(store, object_name) {
        Ok(rd) => rd,
        Err(e) => {
            proof {
                if ls_tree_ok(*store, object_name@) {
                    let (id2, k2, n2) = choose|id2: Seq<u8>, k2: int, n2: nat|
                        resolves_to(*store, object_name@, id2) && #[trigger] listable_at(
                            *store,
                            id2,
                            k2,
                            n2,
                        );
                    assert(can_resolve(*store, object_name@));
                    assert(false);
                }
                assert forall|t: ObjectType|
                    !crate::git_object::stored_kind(*store, object_name@, t) by {
                    if crate::git_object::stored_kind(*store, object_name@, t) {
                        let (id2, n2) = choose|id2: Seq<u8>, n2: nat|
                            resolves_to(*store, object_name@, id2)
                                && #[trigger] crate::git_object::stored_object_has_header(
                                *store,
                                id2,
                                t,
                                n2,
                            );
                        assert(can_resolve(*store, object_name@));
                        assert(false);
                    }
                }
            }
            return Err(e);
        },
    };
    let ghost id = choose|id: Seq<u8>|
        #[trigger] resolves_to(*store, object_name@, id) && store.lookup(id) == Some(rd.data@)
            && rd.pos == 0;
    let ghost d = rd.data@;
    let header = match crate::reader_utils::read_to_next_null_byte(&mut rd) {
        Ok(h) => h,
        Err(e) => {
            proof {
                if ls_tree_ok(*store, object_name@) {
                    let (id2, k2, n2) = choose|id2: Seq<u8>, k2: int, n2: nat|
                        resolves_to(*store, object_name@, id2) && #[trigger] listable_at(
                            *store,
                            id2,
                            k2,
                            n2,
                        );
                    crate::git_object::lemma_resolves_unique(*store, object_name@, id, id2);
                    if e == GitError::Io {
                        assert(d[k2] != 0);
                    } else {
                        let k0 = choose|k0: int|
                            first_nul_at(d, 0, k0) && !valid_utf8(d.subrange(0, k0));
                        crate::git_object::lemma_first_nul_unique(d, 0, k0, k2);
                        assert(d.take(k2) =~= d.subrange(0, k0));
                    }
                    assert(false);
                }
                assert forall|t: ObjectType|
                    !crate::git_object::stored_kind(*store, object_name@, t) by {
                    if crate::git_object::stored_kind(*store, object_name@, t) {
                        let (id2, n2) = choose|id2: Seq<u8>, n2: nat|
                            resolves_to(*store, object_name@, id2)
                                && #[trigger] crate::git_object::stored_object_has_header(
                                *store,
                                id2,
                                t,
                                n2,
                            );
                        crate::git_object::lemma_resolves_unique(*store, object_name@, id, id2);
                        assert(object_header_parsed(d, t, n2));
                        let k2 = choose|k2: int|
                            #[trigger] first_nul_at(d, 0, k2) && valid_utf8(d.take(k2))
                                && header_parsed(decode_utf8(d.take(k2)), t, n2);
                        if e == GitError::Io {
                            assert(d[k2] != 0);
                        } else {
                            let k0 = choose|k0: int|
                                first_nul_at(d, 0, k0) && !valid_utf8(d.subrange(0, k0));
                            crate::git_object::lemma_first_nul_unique(d, 0, k0, k2);
                            assert(d.take(k2) =~= d.subrange(0, k0));
                        }
                        assert(false);
                    }
                }
            }
            return Err(e);
        },
    };
    let ghost k = rd.pos - 1;
    let (object_type, size) = match identify_header(&header) {
        Ok(p) => p,
        Err(e) => {
            proof {
                if ls_tree_ok(*store, object_name@) {
                    let (id2, k2, n2) = choose|id2: Seq<u8>, k2: int, n2: nat|
                        resolves_to(*store, object_name@, id2) && #[trigger] listable_at(
                            *store,
                            id2,
                            k2,
                            n2,
                        );
                    crate::git_object::lemma_resolves_unique(*store, object_name@, id, id2);
                    crate::git_object::lemma_first_nul_unique(d, 0, k, k2);
                    assert(d.take(k2) =~= d.subrange(0, k));
                    assert(header_parsed(header@, ObjectType::Tree, n2));
                    assert(crate::git_object::header_valid(header@));
                    assert(false);
                }
                assert forall|t: ObjectType|
                    !crate::git_object::stored_kind(*store, object_name@, t) by {
                    if crate::git_object::stored_kind(*store, object_name@, t) {
                        let (id2, n2) = choose|id2: Seq<u8>, n2: nat|
                            resolves_to(*store, object_name@, id2)
                                && #[trigger] crate::git_object::stored_object_has_header(
                                *store,
                                id2,
                                t,
                                n2,
                            );
                        crate::git_object::lemma_resolves_unique(*store, object_name@, id, id2);
                        assert(object_header_parsed(d, t, n2));
                        let k2 = choose|k2: int|
                            #[trigger] first_nul_at(d, 0, k2) && valid_utf8(d.take(k2))
                                && header_parsed(decode_utf8(d.take(k2)), t, n2);
                        crate::git_object::lemma_first_nul_unique(d, 0, k, k2);
                        assert(d.take(k2) =~= d.subrange(0, k));
                        assert(header_parsed(header@, t, n2));
                        assert(crate::git_object::header_valid(header@));
                        assert(false);
                    }
                }
            }
            return Err(e);
        },
    };
    proof {
        assert(d.take(k) =~= d.subrange(0, k));
        vstd::utf8::encode_utf8_valid_utf8(header@);
    }
    if !(object_type == ObjectType::Tree) {
        proof {
            if ls_tree_ok(*store, object_name@) {
                let (id2, k2, n2) = choose|id2: Seq<u8>, k2: int, n2: nat|
                    resolves_to(*store, object_name@, id2) && #[trigger] listable_at(
                        *store,
                        id2,
                        k2,
                        n2,
                    );
                crate::git_object::lemma_resolves_unique(*store, object_name@, id, id2);
                crate::git_object::lemma_first_nul_unique(d, 0, k, k2);
                crate::git_object::lemma_header_parsed_unique(
                    header@,
                    object_type,
                    size as nat,
                    ObjectType::Tree,
                    n2,
                );
                assert(false);
            }
        }
        proof {
            if crate::git_object::stored_kind(*store, object_name@, ObjectType::Tree) {
                let (id2, n2) = choose|id2: Seq<u8>, n2: nat|
                    resolves_to(*store, object_name@, id2)
                        && #[trigger] crate::git_object::stored_object_has_header(
                        *store,
                        id2,
                        ObjectType::Tree,
                        n2,
                    );
                crate::git_object::lemma_resolves_unique(*store, object_name@, id, id2);
                assert(object_header_parsed(d, ObjectType::Tree, n2));
                let k2 = choose|k2: int|
                    #[trigger] first_nul_at(d, 0, k2) && valid_utf8(d.take(k2)) && crate::git_object::header_parsed(
                        decode_utf8(d.take(k2)),
                        ObjectType::Tree,
                        n2,
                    );
                assert(k2 == k);
                crate::git_object::lemma_header_parsed_unique(
                    decode_utf8(d.take(k)),
                    object_type,
                    size as nat,
                    ObjectType::Tree,
                    n2,
                );
                assert(false);
            }
        }
        return Err(GitError::WrongType);
    }
    let ghost pos_payload = rd.pos;
    proof {
        assert(object_header_parsed(d, ObjectType::Tree, size as nat)) by {
            assert(first_nul_at(d, 0, k));
            assert(valid_utf8(d.take(k)));
            assert(decode_utf8(d.take(k)) == header@);
        }
        assert(crate::git_object::stored_object_has_header(
            *store,
            id,
            ObjectType::Tree,
            size as nat,
        ));
        assert(crate::git_object::stored_kind(*store, object_name@, ObjectType::Tree));
    }
    let s = match stringify_tree(&mut rd, size, name_only) {
        Ok(s) => s,
        Err(e) => {
            proof {
                if ls_tree_ok(*store, object_name@) {
                    let (id2, k2, n2) = choose|id2: Seq<u8>, k2: int, n2: nat|
                        resolves_to(*store, object_name@, id2) && #[trigger] listable_at(
                            *store,
                            id2,
                            k2,
                            n2,
                        );
                    crate::git_object::lemma_resolves_unique(*store, object_name@, id, id2);
                    crate::git_object::lemma_first_nul_unique(d, 0, k, k2);
                    crate::git_object::lemma_header_parsed_unique(
                        header@,
                        object_type,
                        size as nat,
                        ObjectType::Tree,
                        n2,
                    );
                    assert(d.subrange(k + 1, k + 1 + size) =~= d.subrange(
                        pos_payload as int,
                        pos_payload + size,
                    ));
                    assert(false);
                }
            }
            return Err(e);
        },
    };
    proof {
        assert(d.subrange(k + 1, k + 1 + size) =~= d.subrange(
            pos_payload as int,
            pos_payload + size,
        ));
        assert(listed_tree_at(*store, id, k, size as nat, s@, name_only));
        assert(listable_at(*store, id, k, size as nat));
    }
    Ok(s)
}

/// The object under `id` has kind `t`, header ending at `k`, an `n`-byte
/// payload, and prints as `s`: a tree prints as its long listing, any
/// other kind as its payload text.
pub open spec fn payload_text_at(
    store: Store,
    id: Seq<u8>,
    k: int,
    n: nat,
    t: ObjectType,
    s: Seq<char>,
) -> bool {
    store.lookup(id) matches Some(d) && {
        &&& first_nul_at(d, 0, k)
        &&& valid_utf8(d.take(k))
        &&& header_parsed(decode_utf8(d.take(k)), t, n)
        &&& k + 1 + n <= d.len()
        &&& if t == ObjectType::Tree {
            tree_parse(d.subrange(k + 1, k + 1 + n)) matches Some(ents) && s == tree_listing(
                ents,
                false,
            )
        } else {
            valid_utf8(d.subrange(k + 1, k + 1 + n)) && s == decode_utf8(
                d.subrange(k + 1, k + 1 + n),
            )
        }
    }
}

/// `s` prints the object that `name` abbreviates.
pub open spec fn cat_file_output(store: Store, name: Seq<char>, s: Seq<char>) -> bool {
    exists|id: Seq<u8>, k: int, n: nat, t: ObjectType|
        resolves_to(store, name, id) && #[trigger] payload_text_at(store, id, k, n, t, s)
}

/// The object under `id` can be printed: it has a well-formed header,
/// its declared payload is present, and that payload is a well-formed
/// tree or valid text.
pub open spec fn printable_at(store: Store, id: Seq<u8>, k: int, n: nat, t: ObjectType) -> bool {
    store.lookup(id) matches Some(d) && {
        &&& first_nul_at(d, 0, k)
        &&& valid_utf8(d.take(k))
        &&& header_parsed(decode_utf8(d.take(k)), t, n)
        &&& k + 1 + n <= d.len()
        &&& if t == ObjectType::Tree {
            tree_parse(d.subrange(k + 1, k + 1 + n)) is Some
        } else {
            valid_utf8(d.subrange(k + 1, k + 1 + n))
        }
    }
}

/// The object `name` abbreviates exists and can be printed.
pub open spec fn cat_file_ok(store: Store, name: Seq<char>) -> bool {
    exists|id: Seq<u8>, k: int, n: nat, t: ObjectType|
        resolves_to(store, name, id) && #[trigger] printable_at(store, id, k, n, t)
}

/// Prints the object `object_name` abbreviates: the payload verbatim for
/// a blob, commit or tag, the long listing for a tree.
pub fn cat_file(store: &Store, object_name: &String) -> (r: Result<String, GitError>)
    requires
        store.wf(),
    ensures
        match r {
            Ok(s) => cat_file_output(*store, object_name@, s@),
            Err(e) => {
                &&& e == GitError::Decode || e == GitError::NotFound || e == GitError::Ambiguous
                    || e == GitError::Io
                &&& e == GitError::NotFound ==> object_name@.len() >= 2 && match_count(
                    store.ids(),
                    object_name@,
                ) == 0
                &&& e == GitError::Ambiguous ==> match_count(store.ids(), object_name@) >= 2
            },
        },
        r is Ok <==> cat_file_ok(*store, object_name@),
{
    let mut rd = match reader(store, object_name) {
        Ok(rd) => rd,
        Err(e) => {
            proof {
                if cat_file_ok(*store, object_name@) {
                    let (id2, k2, n2, t2) = choose|id2: Seq<u8>, k2: int, n2: nat, t2: ObjectType|
                        resolves_to(*store, object_name@, id2) && #[trigger] printable_at(
                            *store,
                            id2,
                            k2,
                            n2,
                            t2,
                        );
                    assert(can_resolve(*store, object_name@));
                    assert(false);
                }
            }
            return Err(e);
        },
    };
    let ghost id = choose|id: Seq<u8>|
        #[trigger] resolves_to(*store, object_name@, id) && store.lookup(id) == Some(rd.data@)
            && rd.pos == 0;
    let ghost d = rd.data@;
    let header = match crate::reader_utils::read_to_next_null_byte(&mut rd) {
        Ok(h) => h,
        Err(e) => {
            proof {
                if cat_file_ok(*store, object_name@) {
                    let (id2, k2, n2, t2) = choose|id2: Seq<u8>, k2: int, n2: nat, t2: ObjectType|
                        resolves_to(*store, object_name@, id2) && #[trigger] printable_at(
                            *store,
                            id2,
                            k2,
                            n2,
                            t2,
                        );
                    crate::git_object::lemma_resolves_unique(*store, object_name@, id, id2);
                    if e == GitError::Io {
                        assert(d[k2] != 0);
                    } else {
                        let k0 = choose|k0: int|
                            first_nul_at(d, 0, k0) && !valid_utf8(d.subrange(0, k0));
                        crate::git_object::lemma_first_nul_unique(d, 0, k0, k2);
                        assert(d.take(k2) =~= d.subrange(0, k0));
                    }
                    assert(false);
                }
                assert forall|t: ObjectType|
                    !crate::git_object::stored_kind(*store, object_name@, t) by {
                    if crate::git_object::stored_kind(*store, object_name@, t) {
                        let (id2, n2) = choose|id2: Seq<u8>, n2: nat|
                            resolves_to(*store, object_name@, id2)
                                && #[trigger] crate::git_object::stored_object_has_header(
                                *store,
                                id2,
                                t,
                                n2,
                            );
                        crate::git_object::lemma_resolves_unique(*store, object_name@, id, id2);
                        assert(object_header_parsed(d, t, n2));
                        let k2 = choose|k2: int|
                            #[trigger] first_nul_at(d, 0, k2) && valid_utf8(d.take(k2))
                                && header_parsed(decode_utf8(d.take(k2)), t, n2);
                        if e == GitError::Io {
                            assert(d[k2] != 0);
                        } else {
                            let k0 = choose|k0: int|
                                first_nul_at(d, 0, k0) && !valid_utf8(d.subrange(0, k0));
                            crate::git_object::lemma_first_nul_unique(d, 0, k0, k2);
                            assert(d.take(k2) =~= d.subrange(0, k0));
                        }
                        assert(false);
                    }
                }
            }
            return Err(e);
        },
    };
    let ghost k = rd.pos - 1;
    let (object_type, size) = match identify_header(&header) {
        Ok(p) => p,
        Err(e) => {
            proof {
                if cat_file_ok(*store, object_name@) {
                    let (id2, k2, n2, t2) = choose|id2: Seq<u8>, k2: int, n2: nat, t2: ObjectType|
                        resolves_to(*store, object_name@, id2) && #[trigger] printable_at(
                            *store,
                            id2,
                            k2,
                            n2,
                            t2,
                        );
                    crate::git_object::lemma_resolves_unique(*store, object_name@, id, id2);
                    crate::git_object::lemma_first_nul_unique(d, 0, k, k2);
                    assert(d.take(k2) =~= d.subrange(0, k));
                    assert(header_parsed(header@, t2, n2));
                    assert(crate::git_object::header_valid(header@));
                    assert(false);
                }
            }
            return Err(e);
        },
    };
    proof {
        assert(d.take(k) =~= d.subrange(0, k));
        vstd::utf8::encode_utf8_valid_utf8(header@);
    }
    let ghost pos_payload = rd.pos;
    if object_type == ObjectType::Tree {
        let s = match stringify_tree(&mut rd, size, false) {
            Ok(s) => s,
            Err(e) => {
                proof {
                    if cat_file_ok(*store, object_name@) {
                        let (id2, k2, n2, t2) = choose|
                            id2: Seq<u8>,
                            k2: int,
                            n2: nat,
                            t2: ObjectType,
                        |
                            resolves_to(*store, object_name@, id2) && #[trigger] printable_at(
                                *store,
                                id2,
                                k2,
                                n2,
                                t2,
                            );
                        crate::git_object::lemma_resolves_unique(*store, object_name@, id, id2);
                        crate::git_object::lemma_first_nul_unique(d, 0, k, k2);
                        crate::git_object::lemma_header_parsed_unique(
                            header@,
                            object_type,
                            size as nat,
                            t2,
                            n2,
                        );
                        assert(d.subrange(k + 1, k + 1 + size) =~= d.subrange(
                            pos_payload as int,
                            pos_payload + size,
                        ));
                        assert(false);
                    }
                }
                return Err(e);
            },
        };
        proof {
            assert(d.subrange(k + 1, k + 1 + size) =~= d.subrange(
                pos_payload as int,
                pos_payload + size,
            ));
            assert(payload_text_at(*store, id, k, size as nat, object_type, s@));
            assert(printable_at(*store, id, k, size as nat, object_type));
        }
        Ok(s)
    } else {
        let payload = match read_n_bytes(size, &mut rd) {
            Ok(v) => v,
            Err(e) => {
                proof {
                    if cat_file_ok(*store, object_name@) {
                        let (id2, k2, n2, t2) = choose|
                            id2: Seq<u8>,
                            k2: int,
                            n2: nat,
                            t2: ObjectType,
                        |
                            resolves_to(*store, object_name@, id2) && #[trigger] printable_at(
                                *store,
                                id2,
                                k2,
                                n2,
                                t2,
                            );
                        crate::git_object::lemma_resolves_unique(*store, object_name@, id, id2);
                        crate::git_object::lemma_first_nul_unique(d, 0, k, k2);
                        crate::git_object::lemma_header_parsed_unique(
                            header@,
                            object_type,
                            size as nat,
                            t2,
                            n2,
                        );
                        assert(false);
                    }
                }
                return Err(e);
            },
        };
        let s = match crate::reader_utils::bytes_to_string(payload.as_slice()) {
            Ok(s) => s,
            Err(e) => {
                proof {
                    if cat_file_ok(*store, object_name@) {
                        let (id2, k2, n2, t2) = choose|
                            id2: Seq<u8>,
                            k2: int,
                            n2: nat,
                            t2: ObjectType,
                        |
                            resolves_to(*store, object_name@, id2) && #[trigger] printable_at(
                                *store,
                                id2,
                                k2,
                                n2,
                                t2,
                            );
                        crate::git_object::lemma_resolves_unique(*store, object_name@, id, id2);
                        crate::git_object::lemma_first_nul_unique(d, 0, k, k2);
                        crate::git_object::lemma_header_parsed_unique(
                            header@,
                            object_type,
                            size as nat,
                            t2,
                            n2,
                        );
                        assert(d.subrange(k + 1, k + 1 + size) =~= d.subrange(
                            pos_payload as int,
                            pos_payload + size,
                        ));
                        assert(false);
                    }
                }
                return Err(e);
            },
        };
        proof {
            assert(d.subrange(k + 1, k + 1 + size) =~= d.subrange(
                pos_payload as int,
                pos_payload + size,
            ));
            assert(payload_text_at(*store, id, k, size as nat, object_type, s@));
            assert(printable_at(*store, id, k, size as nat, object_type));
        }
        Ok(s)
    }
}

/// The payload of a commit: a `tree` line, an optional `parent` line,
/// an `author` and a `committer` line carrying the same identity and
/// time, a blank line, and the message with a trailing newline.
pub open spec fn commit_payload(
    tree_hex: Seq<char>,
    parent_hex: Option<Seq<char>>,
    author: Seq<char>,
    email: Seq<char>,
    timestamp: nat,
    tz: Seq<char>,
    message: Seq<char>,
) -> Seq<u8> {
    crate::text::bytes_of_ascii(seq!['t', 'r', 'e', 'e', ' ']) + crate::text::bytes_of_ascii(
        tree_hex,
    ) + seq![10u8] + (match parent_hex {
        None => Seq::<u8>::empty(),
        Some(p) => crate::text::bytes_of_ascii(seq!['p', 'a', 'r', 'e', 'n', 't', ' '])
            + crate::text::bytes_of_ascii(p) + seq![10u8],
    }) + identity_line(seq!['a', 'u', 't', 'h', 'o', 'r', ' '], author, email, timestamp, tz)
        + identity_line(
        seq!['c', 'o', 'm', 'm', 'i', 't', 't', 'e', 'r', ' '],
        author,
        email,
        timestamp,
        tz,
    ) + seq![10u8] + vstd::utf8::encode_utf8(message) + seq![10u8]
}

/// One identity line: `<tag><name> <<email>> <seconds> <zone>\n`.
pub open spec fn identity_line(
    tag: Seq<char>,
    name: Seq<char>,
    email: Seq<char>,
    timestamp: nat,
    tz: Seq<char>,
) -> Seq<u8> {
    crate::text::bytes_of_ascii(tag) + vstd::utf8::encode_utf8(name) + seq![32u8, 0x3cu8]
        + vstd::utf8::encode_utf8(email) + seq![0x3eu8, 32u8] + crate::text::bytes_of_ascii(
        dec_chars(timestamp),
    ) + seq![32u8] + vstd::utf8::encode_utf8(tz) + seq![10u8]
}

/// One identity line, as text: `<tag><name> <<email>> <seconds> <zone>`
/// and a newline.
pub open spec fn identity_line_text(
    tag: Seq<char>,
    name: Seq<char>,
    email: Seq<char>,
    timestamp: nat,
    tz: Seq<char>,
) -> Seq<char> {
    tag + name + seq![' ', '<'] + email + seq!['>', ' '] + dec_chars(timestamp) + seq![' '] + tz
        + seq!['\n']
}

/// The payload of a commit, as text: the `tree` line, the optional
/// `parent` line, the author and committer lines, a blank line, and the
/// message with a trailing newline.
pub open spec fn commit_text(
    tree_hex: Seq<char>,
    parent_hex: Option<Seq<char>>,
    author: Seq<char>,
    email: Seq<char>,
    timestamp: nat,
    tz: Seq<char>,
    message: Seq<char>,
) -> Seq<char> {
    seq!['t', 'r', 'e', 'e', ' '] + tree_hex + seq!['\n'] + (match parent_hex {
        None => Seq::<char>::empty(),
        Some(p) => seq!['p', 'a', 'r', 'e', 'n', 't', ' '] + p + seq!['\n'],
    }) + identity_line_text(
        seq!['a', 'u', 't', 'h', 'o', 'r', ' '],
        author,
        email,
        timestamp,
        tz,
    ) + identity_line_text(
        seq!['c', 'o', 'm', 'm', 'i', 't', 't', 'e', 'r', ' '],
        author,
        email,
        timestamp,
        tz,
    ) + seq!['\n'] + message + seq!['\n']
}

/// An identity line's bytes are valid UTF-8 and decode to its text.
proof fn lemma_identity_line_text(
    tag: Seq<char>,
    name: Seq<char>,
    email: Seq<char>,
    timestamp: nat,
    tz: Seq<char>,
)
    requires
        vstd::utf8::is_ascii_chars(tag),
    ensures
        valid_utf8(identity_line(tag, name, email, timestamp, tz)),
        decode_utf8(identity_line(tag, name, email, timestamp, tz)) == identity_line_text(
            tag,
            name,
            email,
            timestamp,
            tz,
        ),
{
    let sp_lt = seq![' ', '<'];
    let gt_sp = seq!['>', ' '];
    let sp = seq![' '];
    let nl = seq!['\n'];
    crate::text::lemma_ascii_encode(tag);
    crate::text::lemma_ascii_encode(sp_lt);
    crate::text::lemma_ascii_encode(gt_sp);
    crate::text::lemma_ascii_encode(sp);
    crate::text::lemma_ascii_encode(nl);
    crate::text::lemma_dec_chars_ok(timestamp);
    crate::text::lemma_ascii_encode(dec_chars(timestamp));
    vstd::utf8::encode_utf8_valid_utf8(name);
    vstd::utf8::encode_utf8_decode_utf8(name);
    vstd::utf8::encode_utf8_valid_utf8(email);
    vstd::utf8::encode_utf8_decode_utf8(email);
    vstd::utf8::encode_utf8_valid_utf8(tz);
    vstd::utf8::encode_utf8_decode_utf8(tz);
    assert(seq![32u8, 0x3cu8] =~= crate::text::bytes_of_ascii(sp_lt));
    assert(seq![0x3eu8, 32u8] =~= crate::text::bytes_of_ascii(gt_sp));
    assert(seq![32u8] =~= crate::text::bytes_of_ascii(sp));
    assert(seq![10u8] =~= crate::text::bytes_of_ascii(nl));
    let p1 = crate::text::bytes_of_ascii(tag);
    let p2 = vstd::utf8::encode_utf8(name);
    let p3 = crate::text::bytes_of_ascii(sp_lt);
    let p4 = vstd::utf8::encode_utf8(email);
    let p5 = crate::text::bytes_of_ascii(gt_sp);
    let p6 = crate::text::bytes_of_ascii(dec_chars(timestamp));
    let p7 = crate::text::bytes_of_ascii(sp);
    let p8 = vstd::utf8::encode_utf8(tz);
    let p9 = crate::text::bytes_of_ascii(nl);
    crate::text::lemma_decode_concat(p1, p2);
    crate::text::lemma_decode_concat(p1 + p2, p3);
    crate::text::lemma_decode_concat(p1 + p2 + p3, p4);
    crate::text::lemma_decode_concat(p1 + p2 + p3 + p4, p5);
    crate::text::lemma_decode_concat(p1 + p2 + p3 + p4 + p5, p6);
    crate::text::lemma_decode_concat(p1 + p2 + p3 + p4 + p5 + p6, p7);
    crate::text::lemma_decode_concat(p1 + p2 + p3 + p4 + p5 + p6 + p7, p8);
    crate::text::lemma_decode_concat(p1 + p2 + p3 + p4 + p5 + p6 + p7 + p8, p9);
    assert(identity_line(tag, name, email, timestamp, tz) =~= p1 + p2 + p3 + p4 + p5 + p6 + p7
        + p8 + p9);
    assert(decode_utf8(identity_line(tag, name, email, timestamp, tz)) =~= identity_line_text(
        tag,
        name,
        email,
        timestamp,
        tz,
    ));
}

/// A commit payload is valid UTF-8 and decodes to its text: what
/// `cat-file` prints for a written commit is [`commit_text`].
pub proof fn lemma_commit_payload_text(
    tree_hex: Seq<char>,
    parent_hex: Option<Seq<char>>,
    author: Seq<char>,
    email: Seq<char>,
    timestamp: nat,
    tz: Seq<char>,
    message: Seq<char>,
)
    requires
        vstd::utf8::is_ascii_chars(tree_hex),
        parent_hex matches Some(p) ==> vstd::utf8::is_ascii_chars(p),
    ensures
        valid_utf8(commit_payload(tree_hex, parent_hex, author, email, timestamp, tz, message)),
        decode_utf8(commit_payload(tree_hex, parent_hex, author, email, timestamp, tz, message))
            == commit_text(tree_hex, parent_hex, author, email, timestamp, tz, message),
{
    let tree_tag = seq!['t', 'r', 'e', 'e', ' '];
    let parent_tag = seq!['p', 'a', 'r', 'e', 'n', 't', ' '];
    let author_tag = seq!['a', 'u', 't', 'h', 'o', 'r', ' '];
    let committer_tag = seq!['c', 'o', 'm', 'm', 'i', 't', 't', 'e', 'r', ' '];
    let nl = seq!['\n'];
    crate::text::lemma_ascii_encode(tree_tag);
    crate::text::lemma_ascii_encode(parent_tag);
    crate::text::lemma_ascii_encode(author_tag);
    crate::text::lemma_ascii_encode(committer_tag);
    crate::text::lemma_ascii_encode(nl);
    crate::text::lemma_ascii_encode(tree_hex);
    vstd::utf8::encode_utf8_valid_utf8(message);
    vstd::utf8::encode_utf8_decode_utf8(message);
    assert(seq![10u8] =~= crate::text::bytes_of_ascii(nl));
    let q1 = crate::text::bytes_of_ascii(tree_tag) + crate::text::bytes_of_ascii(tree_hex)
        + crate::text::bytes_of_ascii(nl);
    crate::text::lemma_decode_concat(
        crate::text::bytes_of_ascii(tree_tag),
        crate::text::bytes_of_ascii(tree_hex),
    );
    crate::text::lemma_decode_concat(
        crate::text::bytes_of_ascii(tree_tag) + crate::text::bytes_of_ascii(tree_hex),
        crate::text::bytes_of_ascii(nl),
    );
    assert(decode_utf8(q1) =~= tree_tag + tree_hex + nl);
    let q2 = match parent_hex {
        None => Seq::<u8>::empty(),
        Some(p) => crate::text::bytes_of_ascii(parent_tag) + crate::text::bytes_of_ascii(p)
            + crate::text::bytes_of_ascii(nl),
    };
    match parent_hex {
        None => {
            assert(valid_utf8(q2));
            assert(decode_utf8(q2) =~= Seq::<char>::empty());
        },
        Some(p) => {
            crate::text::lemma_ascii_encode(p);
            crate::text::lemma_decode_concat(
                crate::text::bytes_of_ascii(parent_tag),
                crate::text::bytes_of_ascii(p),
            );
            crate::text::lemma_decode_concat(
                crate::text::bytes_of_ascii(parent_tag) + crate::text::bytes_of_ascii(p),
                crate::text::bytes_of_ascii(nl),
            );
            assert(decode_utf8(q2) =~= parent_tag + p + nl);
        },
    }
    let q3 = identity_line(author_tag, author, email, timestamp, tz);
    let q4 = identity_line(committer_tag, author, email, timestamp, tz);
    lemma_identity_line_text(author_tag, author, email, timestamp, tz);
    lemma_identity_line_text(committer_tag, author, email, timestamp, tz);
    let q5 = crate::text::bytes_of_ascii(nl) + vstd::utf8::encode_utf8(message)
        + crate::text::bytes_of_ascii(nl);
    crate::text::lemma_decode_concat(
        crate::text::bytes_of_ascii(nl),
        vstd::utf8::encode_utf8(message),
    );
    crate::text::lemma_decode_concat(
        crate::text::bytes_of_ascii(nl) + vstd::utf8::encode_utf8(message),
        crate::text::bytes_of_ascii(nl),
    );
    assert(decode_utf8(q5) =~= nl + message + nl);
    crate::text::lemma_decode_concat(q1, q2);
    crate::text::lemma_decode_concat(q1 + q2, q3);
    crate::text::lemma_decode_concat(q1 + q2 + q3, q4);
    crate::text::lemma_decode_concat(q1 + q2 + q3 + q4, q5);
    assert(commit_payload(tree_hex, parent_hex, author, email, timestamp, tz, message) =~= q1 + q2
        + q3 + q4 + q5);
    assert(decode_utf8(commit_payload(tree_hex, parent_hex, author, email, timestamp, tz, message))
        =~= commit_text(tree_hex, parent_hex, author, email, timestamp, tz, message));
}

/// Appends the UTF-8 bytes of `s`.
fn push_str_bytes(out: &mut Vec<u8>, s: &str)
    ensures
        final(out)@ == old(out)@ + vstd::utf8::encode_utf8(s@),
{
    let mut v = s.as_bytes_vec();
    out.append(&mut v);
}

/// A commit for tree `tid` with parent hex `phex` was stored: `now`
/// extends `prev` by exactly that framed commit, whose payload follows
/// [`commit_payload`], and `h` is its hex identity.
pub open spec fn commit_written(
    prev: Store,
    now: Store,
    name: Seq<char>,
    parent: Option<Seq<char>>,
    author: Seq<char>,
    email: Seq<char>,
    ts: nat,
    tz: Seq<char>,
    msg: Seq<char>,
    h: Seq<char>,
    tid: Seq<u8>,
    phex: Option<Seq<char>>,
) -> bool {
    let payload = commit_payload(hex_of(tid), phex, author, email, ts, tz, msg);
    let framed = crate::git_object::frame_spec(ObjectType::Commit, payload);
    &&& resolves_to(prev, name, tid)
    &&& (match parent {
        Some(pn) => phex matches Some(px) && (exists|pid: Seq<u8>|
            #[trigger] resolves_to(prev, pn, pid) && px == hex_of(pid)),
        None => phex is None,
    })
    &&& h == hex_of(crate::hashing::sha1_of(framed))
    &&& now.lookup(crate::hashing::sha1_of(framed)) == Some(framed)
    &&& (forall|q: Seq<u8>|
        q != crate::hashing::sha1_of(framed) ==> now.lookup(q) == prev.lookup(q))
}

/// Appends one identity line of [`identity_line`].
#[verifier::rlimit(60)]
#[verifier::spinoff_prover]
fn push_identity_line(
    out: &mut Vec<u8>,
    tag: &str,
    name: &String,
    email: &String,
    ts_str: &String,
    tz: &String,
)
    requires
        vstd::utf8::is_ascii_chars(tag@),
        ts_str@ =~= dec_chars(dec_val(ts_str@)),
    ensures
        final(out)@ == old(out)@ + identity_line(tag@, name@, email@, dec_val(ts_str@), tz@),
{
    proof {
        reveal_strlit(" <");
        reveal_strlit("> ");
        reveal_strlit(" ");
        reveal_strlit("\n");
        assert(" <"@ =~= seq![' ', '<']);
        assert("> "@ =~= seq!['>', ' ']);
        assert(" "@ =~= seq![' ']);
        assert("\n"@ =~= seq!['\n']);
        crate::text::lemma_ascii_encode(" <"@);
        crate::text::lemma_ascii_encode("> "@);
        crate::text::lemma_ascii_encode(" "@);
        crate::text::lemma_ascii_encode("\n"@);
        crate::text::lemma_ascii_encode(tag@);
        crate::text::lemma_dec_chars_ok(dec_val(ts_str@));
        crate::text::lemma_ascii_encode(dec_chars(dec_val(ts_str@)));
    }
    push_str_bytes(out, tag);
    push_str_bytes(out, name.as_str());
    push_str_bytes(out, " <");
    push_str_bytes(out, email.as_str());
    push_str_bytes(out, "> ");
    push_str_bytes(out, ts_str.as_str());
    push_str_bytes(out, " ");
    push_str_bytes(out, tz.as_str());
    push_str_bytes(out, "\n");
    proof {
        assert(out@ =~= old(out)@ + identity_line(tag@, name@, email@, dec_val(ts_str@), tz@));
    }
}

/// Assembles the commit payload text of [`commit_payload`].
#[verifier::rlimit(100)]
#[verifier::spinoff_prover]
fn build_commit_payload(
    tree_hex: &String,
    parent_hex: &Option<String>,
    author: &String,
    email: &String,
    timestamp: u64,
    timezone: &String,
    message: &String,
) -> (payload: Vec<u8>)
    requires
        vstd::utf8::is_ascii_chars(tree_hex@),
        parent_hex matches Some(p) ==> vstd::utf8::is_ascii_chars(p@),
    ensures
        payload@ == commit_payload(
            tree_hex@,
            match parent_hex {
                Some(p) => Some(p@),
                None => None,
            },
            author@,
            email@,
            timestamp as nat,
            timezone@,
            message@,
        ),
{
    let mut payload: Vec<u8> = Vec::new();
    proof {
        reveal_strlit("tree ");
        reveal_strlit("parent ");
        reveal_strlit("author ");
        reveal_strlit("committer ");
        reveal_strlit("\n");
        assert("tree "@ =~= seq!['t', 'r', 'e', 'e', ' ']);
        assert("parent "@ =~= seq!['p', 'a', 'r', 'e', 'n', 't', ' ']);
        assert("author "@ =~= seq!['a', 'u', 't', 'h', 'o', 'r', ' ']);
        assert("committer "@ =~= seq!['c', 'o', 'm', 'm', 'i', 't', 't', 'e', 'r', ' ']);
        assert("\n"@ =~= seq!['\n']);
        crate::text::lemma_ascii_encode("tree "@);
        crate::text::lemma_ascii_encode("parent "@);
        crate::text::lemma_ascii_encode("author "@);
        crate::text::lemma_ascii_encode("committer "@);
        crate::text::lemma_ascii_encode("\n"@);
        crate::text::lemma_ascii_encode(tree_hex@);
        match parent_hex {
            Some(p) => {
                crate::text::lemma_ascii_encode(p@);
            },
            None => {},
        }
    }
    push_str_bytes(&mut payload, "tree ");
    push_str_bytes(&mut payload, tree_hex.as_str());
    push_str_bytes(&mut payload, "\n");
    if let Some(p) = parent_hex {
        push_str_bytes(&mut payload, "parent ");
        push_str_bytes(&mut payload, p.as_str());
        push_str_bytes(&mut payload, "\n");
    }
    let ghost head = payload@;
    proof {
        assert(head =~= crate::text::bytes_of_ascii(seq!['t', 'r', 'e', 'e', ' '])
            + crate::text::bytes_of_ascii(tree_hex@) + seq![10u8] + (match parent_hex {
            None => Seq::<u8>::empty(),
            Some(p) => crate::text::bytes_of_ascii(seq!['p', 'a', 'r', 'e', 'n', 't', ' '])
                + crate::text::bytes_of_ascii(p@) + seq![10u8],
        }));
    }
    let ts_str = u64_to_string(timestamp);
    proof {
        crate::text::lemma_dec_chars_ok(timestamp as nat);
        assert(ts_str@ =~= dec_chars(dec_val(ts_str@)));
    }
    push_identity_line(&mut payload, "author ", author, email, &ts_str, timezone);
    let ghost with_author = payload@;
    push_identity_line(&mut payload, "committer ", author, email, &ts_str, timezone);
    let ghost with_committer = payload@;
    push_str_bytes(&mut payload, "\n");
    push_str_bytes(&mut payload, message.as_str());
    push_str_bytes(&mut payload, "\n");
    proof {
        let au = identity_line(
            seq!['a', 'u', 't', 'h', 'o', 'r', ' '],
            author@,
            email@,
            timestamp as nat,
            timezone@,
        );
        let co = identity_line(
            seq!['c', 'o', 'm', 'm', 'i', 't', 't', 'e', 'r', ' '],
            author@,
            email@,
            timestamp as nat,
            timezone@,
        );
        assert(with_author == head + au);
        assert(with_committer == head + au + co);
        assert(payload@ =~= head + au + co + seq![10u8] + vstd::utf8::encode_utf8(message@)
            + seq![10u8]);
        assert(commit_payload(
            tree_hex@,
            match parent_hex {
                Some(p) => Some(p@),
                None => None,
            },
            author@,
            email@,
            timestamp as nat,
            timezone@,
            message@,
        ) =~= payload@);
    }
    payload
}

/// What `commit-tree` demands of its inputs: the tree name must
/// abbreviate a stored tree, and the parent, when given, a stored
/// commit.
pub open spec fn commit_inputs_ok(store: Store, tree_name: Seq<char>, parent: Option<Seq<char>>) -> bool {
    &&& crate::git_object::stored_kind(store, tree_name, ObjectType::Tree)
    &&& match parent {
        Some(pn) => crate::git_object::stored_kind(store, pn, ObjectType::Commit),
        None => true,
    }
}

/// Some tree identity and parent hex witness [`commit_written`].
pub open spec fn commit_outcome(
    prev: Store,
    now: Store,
    name: Seq<char>,
    parent: Option<Seq<char>>,
    author: Seq<char>,
    email: Seq<char>,
    ts: nat,
    tz: Seq<char>,
    msg: Seq<char>,
    h: Seq<char>,
) -> bool {
    exists|tid: Seq<u8>, phex: Option<Seq<char>>|
        #[trigger] commit_written(prev, now, name, parent, author, email, ts, tz, msg, h, tid, phex)
}

/// Builds and stores a commit object for the tree `tree_name`
/// abbreviates, with an optional parent, the given identity and time,
/// and the message. Returns the commit's hex identity.
#[verifier::loop_isolation(false)]
#[verifier::rlimit(100)]
#[verifier::spinoff_prover]
pub fn commit_tree(
    store: &mut Store,
    message: &String,
    tree_name: &String,
    parent_name: &Option<String>,
    author: &String,
    email: &String,
    timestamp: u64,
    timezone: &String,
) -> (r: Result<String, GitError>)
    requires
        old(store).wf(),
    ensures
        final(store).wf(),
        r is Ok ==> crate::git_object::stored_kind(*old(store), tree_name@, ObjectType::Tree),
        r matches Ok(h) ==> commit_outcome(
            *old(store),
            *final(store),
            tree_name@,
            parent_name.deep_view(),
            author@,
            email@,
            timestamp as nat,
            timezone@,
            message@,
            h@,
        ),
        r is Err ==> *final(store) == *old(store),
        r matches Err(e) ==> e == GitError::Decode || e == GitError::NotFound || e
            == GitError::Ambiguous || e == GitError::Io || e == GitError::WrongType,
        r is Ok <==> commit_inputs_ok(*old(store), tree_name@, parent_name.deep_view()),
        r matches Err(e) ==> (e == GitError::WrongType ==> !commit_inputs_ok(
            *old(store),
            tree_name@,
            parent_name.deep_view(),
        )),
        (exists|t: ObjectType| crate::git_object::stored_kind(*old(store), tree_name@, t))
            && !crate::git_object::stored_kind(*old(store), tree_name@, ObjectType::Tree) ==> r
            == Err::<String, GitError>(GitError::WrongType),
        crate::git_object::stored_kind(*old(store), tree_name@, ObjectType::Tree) && (match
            parent_name {
            Some(pn) => (exists|t: ObjectType|
                crate::git_object::stored_kind(*old(store), pn@, t))
                && !crate::git_object::stored_kind(*old(store), pn@, ObjectType::Commit),
            None => false,
        }) ==> r == Err::<String, GitError>(GitError::WrongType),
{
    match crate::git_object::get_type(store, tree_name) {
        Ok(t) => {
            if !(t == ObjectType::Tree) {
                proof {
                    if crate::git_object::stored_kind(*store, tree_name@, ObjectType::Tree) {
                        crate::git_object::lemma_stored_kind_unique(
                            *store,
                            tree_name@,
                            t,
                            ObjectType::Tree,
                        );
                    }
                }
                return Err(GitError::WrongType);
            }
        },
        Err(e) => {
            proof {
                assert(!crate::git_object::stored_kind(*store, tree_name@, ObjectType::Tree));
            }
            return Err(e);
        },
    }
    match parent_name {
        Some(pn) => {
            match crate::git_object::get_type(store, pn) {
                Ok(t) => {
                    if !(t == ObjectType::Commit) {
                        proof {
                            if crate::git_object::stored_kind(*store, pn@, ObjectType::Commit) {
                                crate::git_object::lemma_stored_kind_unique(
                                    *store,
                                    pn@,
                                    t,
                                    ObjectType::Commit,
                                );
                            }
                        }
                        return Err(GitError::WrongType);
                    }
                },
                Err(e) => {
                    proof {
                        assert(!crate::git_object::stored_kind(*store, pn@, ObjectType::Commit));
                    }
                    return Err(e);
                },
            }
        },
        None => {},
    }
    let full_tree_name = match crate::git_object::full_hash(store, tree_name) {
        Ok(h) => h,
        Err(e) => {
            proof {
                let (tid, n) = choose|tid: Seq<u8>, n: nat|
                    resolves_to(*store, tree_name@, tid)
                        && #[trigger] crate::git_object::stored_object_has_header(
                        *store,
                        tid,
                        ObjectType::Tree,
                        n,
                    );
                assert(can_resolve(*store, tree_name@));
                assert(false);
            }
            return Err(e);
        },
    };
    proof {
        let tid = choose|tid: Seq<u8>|
            #[trigger] resolves_to(*store, tree_name@, tid) && full_tree_name@ == hex_of(tid);
        crate::hashing::lemma_hex_of_shape(tid);
        assert(vstd::utf8::is_ascii_chars(full_tree_name@));
    }
    let mut full_parent_hash: Option<String> = None;
    match parent_name {
        Some(pn) => {
            match crate::git_object::full_hash(store, pn) {
                Ok(h) => {
                    proof {
                        let pid = choose|pid: Seq<u8>|
                            #[trigger] resolves_to(*store, pn@, pid) && h@ == hex_of(pid);
                        crate::hashing::lemma_hex_of_shape(pid);
                        assert(vstd::utf8::is_ascii_chars(h@));
                    }
                    full_parent_hash = Some(h);
                    proof {
                        assert(exists|pid: Seq<u8>|
                            #[trigger] resolves_to(*old(store), pn@, pid)
                                && full_parent_hash->Some_0@ == hex_of(pid));
                    }
                },
                Err(e) => {
                    proof {
                        let (pid, n) = choose|pid: Seq<u8>, n: nat|
                            resolves_to(*store, pn@, pid)
                                && #[trigger] crate::git_object::stored_object_has_header(
                                *store,
                                pid,
                                ObjectType::Commit,
                                n,
                            );
                        assert(can_resolve(*store, pn@));
                        assert(false);
                    }
                    return Err(e);
                },
            }
        },
        None => {},
    }
    let ghost phex: Option<Seq<char>> = match &full_parent_hash {
        Some(p) => Some(p@),
        None => None,
    };
    let payload = build_commit_payload(
        &full_tree_name,
        &full_parent_hash,
        author,
        email,
        timestamp,
        timezone,
        message,
    );
    let hash = crate::git_object::write_commit(store, &payload);
    let hex = crate::hashing::to_hex(&hash);
    proof {
        let tid = choose|tid: Seq<u8>|
            #[trigger] resolves_to(*old(store), tree_name@, tid) && full_tree_name@ == hex_of(tid);
        match parent_name {
            Some(pn) => {
                assert(parent_name.deep_view() == Some(pn@));
            },
            None => {
                assert(parent_name.deep_view() is None);
            },
        }
        assert(payload@ == commit_payload(
            hex_of(tid),
            phex,
            author@,
            email@,
            timestamp as nat,
            timezone@,
            message@,
        ));
        let pay = commit_payload(
            hex_of(tid),
            phex,
            author@,
            email@,
            timestamp as nat,
            timezone@,
            message@,
        );
        let framed = crate::git_object::frame_spec(ObjectType::Commit, pay);
        assert(resolves_to(*old(store), tree_name@, tid));
        match parent_name {
            Some(pn) => {
                let pid = choose|pid: Seq<u8>|
                    #[trigger] resolves_to(*old(store), pn@, pid) && full_parent_hash->Some_0@
                        == hex_of(pid);
                assert(resolves_to(*old(store), pn@, pid) && phex->Some_0 == hex_of(pid));
                assert(parent_name.deep_view() == Some(pn@));
                assert(parent_name.deep_view()->Some_0 == pn@);
                assert(resolves_to(*old(store), parent_name.deep_view()->Some_0, pid));
                assert(phex matches Some(px) && px == hex_of(pid));
                assert(exists|pid2: Seq<u8>|
                    #[trigger] resolves_to(*old(store), parent_name.deep_view()->Some_0, pid2)
                        && phex->Some_0 == hex_of(pid2));
            },
            None => {},
        }
        assert(match parent_name.deep_view() {
            Some(pn) => phex matches Some(px) && (exists|pid: Seq<u8>|
                #[trigger] resolves_to(*old(store), pn, pid) && px == hex_of(pid)),
            None => phex is None,
        });
        assert(hex@ == hex_of(crate::hashing::sha1_of(framed)));
        assert(store.lookup(crate::hashing::sha1_of(framed)) == Some(framed));
        assert(forall|q: Seq<u8>|
            q != crate::hashing::sha1_of(framed) ==> store.lookup(q) == old(store).lookup(q));
        assert(commit_written(
            *old(store),
            *store,
            tree_name@,
            parent_name.deep_view(),
            author@,
            email@,
            timestamp as nat,
            timezone@,
            message@,
            hex@,
            tid,
            phex,
        ));
        assert(commit_outcome(
            *old(store),
            *store,
            tree_name@,
            parent_name.deep_view(),
            author@,
            email@,
            timestamp as nat,
            timezone@,
            message@,
            hex@,
        ));
    }
    Ok(hex)
}

/// Computes the blob identity of `data`, storing the object when
/// `write` is set, and returns the 40-digit hex form.
pub fn hash_object(store: &mut Store, data: &Vec<u8>, write: bool) -> (r: String)
    requires
        old(store).wf(),
    ensures
        final(store).wf(),
        r@ == hex_of(crate::hashing::sha1_of(
            crate::git_object::frame_spec(ObjectType::Blob, data@),
        )),
        write ==> final(store).lookup(
            crate::hashing::sha1_of(crate::git_object::frame_spec(ObjectType::Blob, data@)),
        ) == Some(crate::git_object::frame_spec(ObjectType::Blob, data@)),
        write ==> forall|q: Seq<u8>|
            q != crate::hashing::sha1_of(crate::git_object::frame_spec(ObjectType::Blob, data@))
                ==> final(store).lookup(q) == old(store).lookup(q),
        !write ==> *final(store) == *old(store),
{
    if write {
        let hash = crate::git_object::write_blob(store, data);
        crate::hashing::to_hex(&hash)
    } else {
        let framed = crate::git_object::frame_object(ObjectType::Blob, data);
        let hash = crate::hashing::hash_data(&framed);
        crate::hashing::to_hex(&hash)
    }
}

/// The request body of a fetch: a `want` line for the advertised head,
/// a flush, and `done`.
pub fn build_want_body(head_hash: &String) -> (r: Vec<u8>)
    ensures
        r@ == vstd::utf8::encode_utf8("0032want "@) + vstd::utf8::encode_utf8(head_hash@)
            + vstd::utf8::encode_utf8("\n00000009done\n"@),
{
    let mut out: Vec<u8> = Vec::new();
    push_str_bytes(&mut out, "0032want ");
    push_str_bytes(&mut out, head_hash.as_str());
    push_str_bytes(&mut out, "\n00000009done\n");
    out
}

/// Position of the first occurrence of `c` in `s`.
fn find_char(s: &str, c: char) -> (r: Option<usize>)
    ensures
        match r {
            Some(i) => i < s@.len() && s@[i as int] == c && (forall|j: int|
                0 <= j < i ==> s@[j] != c),
            None => forall|j: int| 0 <= j < s@.len() ==> s@[j] != c,
        },
{
    let n = s.unicode_len();
    let mut i: usize = 0;
    while i < n
        invariant
            i <= n,
            n == s@.len(),
            forall|j: int| 0 <= j < i ==> s@[j] != c,
        decreases n - i,
    {
        if s.get_char(i) == c {
            return Some(i);
        }
        i = i + 1;
    }
    None
}

/// Position of the last occurrence of `c` in `s`.
fn rfind_char(s: &str, c: char) -> (r: Option<usize>)
    ensures
        match r {
            Some(i) => i < s@.len() && s@[i as int] == c && (forall|j: int|
                i < j < s@.len() ==> s@[j] != c),
            None => forall|j: int| 0 <= j < s@.len() ==> s@[j] != c,
        },
{
    let n = s.unicode_len();
    let mut i: usize = n;
    while i > 0
        invariant
            i <= n,
            n == s@.len(),
            forall|j: int| i <= j < n ==> s@[j] != c,
        decreases i,
    {
        i = i - 1;
        if s.get_char(i) == c {
            return Some(i);
        }
    }
    None
}

/// `f` stands between the first space of `s` (at `i`) and the next
/// space or the end.
pub open spec fn second_field_at(s: Seq<char>, i: int, f: Seq<char>) -> bool {
    &&& 0 <= i < s.len()
    &&& s[i] == ' '
    &&& (forall|j: int| 0 <= j < i ==> s[j] != ' ')
    &&& exists|e: int|
        {
            &&& 0 <= e <= s.skip(i + 1).len()
            &&& (forall|j: int| 0 <= j < e ==> (#[trigger] s.skip(i + 1)[j]) != ' ')
            &&& (e < s.skip(i + 1).len() ==> s.skip(i + 1)[e] == ' ')
            &&& f == #[trigger] s.skip(i + 1).take(e)
        }
}

/// Some position witnesses [`second_field_at`].
pub open spec fn second_field_found(s: Seq<char>, f: Seq<char>) -> bool {
    exists|i: int| #[trigger] second_field_at(s, i, f)
}

/// The field between the first space of `s` and the following space or
/// the end of `s`; `None` when `s` has no space.
fn second_field(s: &str) -> (r: Option<String>)
    ensures
        match r {
            Some(f) => second_field_found(s@, f@),
            None => !s@.contains(' '),
        },
{
    let n = s.unicode_len();
    let i = match find_char(s, ' ') {
        Some(i) => i,
        None => {
            proof {
                if s@.contains(' ') {
                    let j = choose|j: int| 0 <= j < s@.len() && s@[j] == ' ';
                    assert(s@[j] != ' ');
                }
            }
            return None;
        },
    };
    let tail = s.substring_char(i + 1, n);
    let tn = tail.unicode_len();
    proof {
        assert(tail@ =~= s@.skip(i + 1));
    }
    let end = match find_char(tail, ' ') {
        Some(j) => j,
        None => tn,
    };
    let f = String::from_str(tail.substring_char(0, end));
    proof {
        assert(f@ =~= s@.skip(i + 1).take(end as int));
        assert(second_field_at(s@, i as int, f@));
        assert(second_field_found(s@, f@));
    }
    Some(f)
}

/// Strips one trailing newline, if any.
fn strip_newline(s: String) -> (r: String)
    ensures
        s@.len() > 0 && s@.last() == '\n' ==> r@ == s@.drop_last(),
        !(s@.len() > 0 && s@.last() == '\n') ==> r@ == s@,
{
    let n = s.as_str().unicode_len();
    if n > 0 && s.as_str().get_char(n - 1) == '\n' {
        let r = String::from_str(s.as_str().substring_char(0, n - 1));
        proof {
            assert(r@ =~= s@.drop_last());
        }
        r
    } else {
        s
    }
}

/// `hp` is where the first ref line starts: after one pkt-line, and
/// after a second one when the first carried a payload — the two
/// skipped prologue lines.
pub open spec fn adv_head_line_pos(body: Seq<u8>, hp: int) -> bool {
    &&& crate::reader_utils::pkt_digits_ok(body, 0)
    &&& {
        let l1 = crate::reader_utils::pkt_len(body, 0) as int;
        if l1 <= 4 {
            hp == 4
        } else {
            &&& l1 <= body.len()
            &&& crate::reader_utils::pkt_digits_ok(body, l1)
            &&& {
                let l2 = crate::reader_utils::pkt_len(body, l1) as int;
                if l2 <= 4 {
                    hp == l1 + 4
                } else {
                    hp == l1 + l2 && l1 + l2 <= body.len()
                }
            }
        }
    }
}

/// The first ref line at `hp` carries payload `line`.
pub open spec fn adv_head_line_at(body: Seq<u8>, hp: int, line: Seq<u8>) -> bool {
    &&& adv_head_line_pos(body, hp)
    &&& crate::reader_utils::pkt_digits_ok(body, hp)
    &&& crate::reader_utils::pkt_len(body, hp) > 4
    &&& hp + crate::reader_utils::pkt_len(body, hp) <= body.len()
    &&& line == body.subrange(hp + 4, hp + crate::reader_utils::pkt_len(body, hp))
}

/// `h` is the first field of the head line: the text before the line's
/// first NUL decodes, its second field is `HEAD`, and `h` is everything
/// before its first space.
/// The chars of the ref name the first advertisement line must carry.
pub open spec fn head_ref_chars() -> Seq<char> {
    seq!['H', 'E', 'A', 'D']
}

pub open spec fn adv_head_hash_of(line: Seq<u8>, h: Seq<char>) -> bool {
    exists|cut: int, i: int|
        {
            &&& 0 <= cut <= line.len()
            &&& #[trigger] crate::reader_utils::no_nul(line, 0, cut)
            &&& cut < line.len() ==> line[cut] == 0
            &&& valid_utf8(line.take(cut))
            &&& #[trigger] second_field_at(decode_utf8(line.take(cut)), i, head_ref_chars())
            &&& h == decode_utf8(line.take(cut)).take(i)
        }
}

/// Where the pkt-line at `at` ends: four bytes for a flush or
/// delimiter, its declared length otherwise.
pub open spec fn pkt_step(body: Seq<u8>, at: int) -> int {
    if crate::reader_utils::pkt_len(body, at) <= 4 {
        at + 4
    } else {
        at + crate::reader_utils::pkt_len(body, at) as int
    }
}

/// The pkt-line at `at` is well-formed and lies inside the body.
pub open spec fn pkt_line_ok(body: Seq<u8>, at: int) -> bool {
    crate::reader_utils::pkt_digits_ok(body, at) && pkt_step(body, at) <= body.len()
}

/// Position `p` is reachable from `from` by stepping over whole
/// pkt-lines.
pub open spec fn pkt_reach(body: Seq<u8>, from: int, p: int) -> bool
    decreases p - from,
{
    if p == from {
        true
    } else if !(from < p && pkt_line_ok(body, from) && from < pkt_step(body, from) <= p) {
        false
    } else {
        pkt_reach(body, pkt_step(body, from), p)
    }
}

/// Reachability extends over one more pkt-line.
proof fn lemma_pkt_reach_snoc(body: Seq<u8>, from: int, mid: int, next: int)
    requires
        from <= mid,
        pkt_reach(body, from, mid),
        pkt_line_ok(body, mid),
        next == pkt_step(body, mid),
        next > mid,
    ensures
        pkt_reach(body, from, next),
    decreases mid - from,
{
    if from != mid {
        lemma_pkt_reach_snoc(body, pkt_step(body, from), mid, next);
    } else {
        assert(pkt_reach(body, next, next));
    }
}

/// `f0` with one trailing newline removed.
pub open spec fn strip_nl(f0: Seq<char>) -> Seq<char> {
    if f0.len() > 0 && f0.last() == '\n' {
        f0.drop_last()
    } else {
        f0
    }
}

/// `branch` is everything after the last slash of `f`, or all of `f`
/// when it has none.
pub open spec fn last_slash_suffix(f: Seq<char>, branch: Seq<char>) -> bool {
    ||| (exists|sp: int|
        0 <= sp < f.len() && #[trigger] f[sp] == '/' && (forall|j: int|
            sp < j < f.len() ==> f[j] != '/') && branch == f.skip(sp + 1))
    ||| ((forall|j: int| 0 <= j < f.len() ==> f[j] != '/') && branch == f)
}

/// A payload-bearing pkt-line at `lp`, reachable from the start of the
/// body.
pub open spec fn adv_line_at(body: Seq<u8>, lp: int, line: Seq<u8>) -> bool {
    &&& pkt_reach(body, 0, lp)
    &&& crate::reader_utils::pkt_digits_ok(body, lp)
    &&& crate::reader_utils::pkt_len(body, lp) > 4
    &&& lp + crate::reader_utils::pkt_len(body, lp) <= body.len()
    &&& line == body.subrange(lp + 4, lp + crate::reader_utils::pkt_len(body, lp) as int)
}

/// The line's text names `head` in its first field, and `f` is its
/// newline-stripped second field.
pub open spec fn adv_ref_line_match(line: Seq<u8>, head: Seq<char>, f: Seq<char>) -> bool {
    exists|i: int, f0: Seq<char>|
        {
            &&& valid_utf8(line)
            &&& #[trigger] second_field_at(decode_utf8(line), i, f0)
            &&& decode_utf8(line).take(i) == head
            &&& f == strip_nl(f0)
        }
}

/// Some advertised line reachable from the start carries `head` as its
/// first field, and `f` is its newline-stripped second field.
pub open spec fn adv_matched(body: Seq<u8>, head: Seq<char>, f: Seq<char>) -> bool {
    exists|lp: int, line: Seq<u8>|
        #[trigger] adv_line_at(body, lp, line) && adv_ref_line_match(line, head, f)
}

/// Some advertised line reachable from the start carries `head` as its
/// first field, and `branch` is the after-last-slash segment of its
/// newline-stripped second field.
pub open spec fn adv_branch_of(body: Seq<u8>, head: Seq<char>, branch: Seq<char>) -> bool {
    exists|lp: int, line: Seq<u8>, f: Seq<char>|
        #[trigger] adv_line_at(body, lp, line) && #[trigger] adv_ref_line_match(line, head, f)
            && last_slash_suffix(f, branch)
}

/// Parses a ref advertisement: skips the service announcement, reads the
/// first ref line, requires it to advertise `HEAD`, then scans the
/// remaining lines for the ref whose hash equals the head's and returns
/// that head hash together with the branch name after the last slash.
#[verifier::loop_isolation(false)]
#[verifier::rlimit(100)]
#[verifier::spinoff_prover]
pub fn parse_ref_advertisement(body: &Vec<u8>) -> (r: Result<(String, String), GitError>)
    ensures
        match r {
            Ok(p) => {
                &&& !p.1@.contains('/')
                &&& exists|hp: int, line: Seq<u8>|
                    #[trigger] adv_head_line_at(body@, hp, line) && adv_head_hash_of(line, p.0@)
                &&& adv_branch_of(body@, p.0@, p.1@)
            },
            Err(e) => e == GitError::Io || e == GitError::Decode || e == GitError::NotFound,
        },
{
    let mut rd = ByteReader::new(vstd::slice::slice_to_vec(body.as_slice()));
    let first = match crate::reader_utils::read_git_pack_line(&mut rd) {
        Ok(v) => v,
        Err(e) => {
            return Err(e);
        },
    };
    proof {
        assert(pkt_reach(body@, 0, 0));
        lemma_pkt_reach_snoc(body@, 0, 0, rd.pos as int);
    }
    if first.is_some() {
        let ghost mid = rd.pos as int;
        match crate::reader_utils::read_git_pack_line(&mut rd) {
            Ok(_) => {},
            Err(e) => {
                return Err(e);
            },
        }
        proof {
            lemma_pkt_reach_snoc(body@, 0, mid, rd.pos as int);
        }
    }
    let ghost hp = rd.pos as int;
    proof {
        assert(adv_head_line_pos(body@, hp));
    }
    let head_line = match crate::reader_utils::read_git_pack_line(&mut rd) {
        Ok(Some(v)) => v,
        Ok(None) => {
            return Err(GitError::Decode);
        },
        Err(e) => {
            return Err(e);
        },
    };
    proof {
        lemma_pkt_reach_snoc(body@, 0, hp, rd.pos as int);
    }
    let ghost hl = head_line@;
    proof {
        assert(adv_head_line_at(body@, hp, hl));
    }
    let ghost cut: int = 0int;
    let before_caps = match find_nul(&head_line) {
        Some(k) => {
            proof {
                cut = k as int;
            }
            vstd::slice::slice_to_vec(
                vstd::slice::slice_subrange(head_line.as_slice(), 0, k),
            )
        },
        None => {
            proof {
                cut = hl.len() as int;
            }
            head_line
        },
    };
    proof {
        assert(before_caps@ =~= hl.take(cut));
        assert(crate::reader_utils::no_nul(hl, 0, cut));
    }
    let head_text = match crate::reader_utils::bytes_to_string(before_caps.as_slice()) {
        Ok(s) => s,
        Err(e) => {
            return Err(e);
        },
    };
    let space_at = match find_char(head_text.as_str(), ' ') {
        Some(i) => i,
        None => {
            return Err(GitError::Decode);
        },
    };
    let refname = match second_field(head_text.as_str()) {
        Some(s) => s,
        None => {
            return Err(GitError::Decode);
        },
    };
    if !crate::text::str_eq(refname.as_str(), "HEAD") {
        return Err(GitError::Decode);
    }
    let head_hash = String::from_str(head_text.as_str().substring_char(0, space_at));
    proof {
        assert(head_hash@ =~= decode_utf8(hl.take(cut)).take(space_at as int));
        assert(second_field_found(head_text@, refname@));
        let i2 = choose|i2: int| #[trigger] second_field_at(head_text@, i2, refname@);
        assert(i2 == space_at as int) by {
            if i2 < space_at as int {
                assert(head_text@[i2] != ' ');
            } else if i2 > space_at as int {
                assert(head_text@[space_at as int] != ' ');
            }
        }
        reveal_strlit("HEAD");
        assert("HEAD"@ =~= seq!['H', 'E', 'A', 'D']);
        assert(second_field_at(
            decode_utf8(hl.take(cut)),
            space_at as int,
            head_ref_chars(),
        ));
        assert(adv_head_hash_of(hl, head_hash@));
        assert(exists|hp2: int, line2: Seq<u8>|
            #[trigger] adv_head_line_at(body@, hp2, line2) && adv_head_hash_of(
                line2,
                head_hash@,
            ));
    }
    let mut head_ref: Option<String> = None;
    loop
        invariant
            rd.data@ == body@,
            rd.pos <= usize::MAX,
            pkt_reach(body@, 0, rd.pos as int),
            head_ref matches Some(hr) ==> adv_matched(body@, head_hash@, hr@),
        decreases rd.data@.len() - rd.pos + 1,
    {
        let ghost pos0 = rd.pos;
        let line = match crate::reader_utils::read_git_pack_line(&mut rd) {
            Ok(Some(v)) => v,
            Ok(None) => {
                break ;
            },
            Err(e) => {
                return Err(e);
            },
        };
        proof {
            assert(rd.pos > pos0);
            lemma_pkt_reach_snoc(body@, 0, pos0 as int, rd.pos as int);
            assert(adv_line_at(body@, pos0 as int, line@));
        }
        let line_text = match crate::reader_utils::bytes_to_string(line.as_slice()) {
            Ok(s) => s,
            Err(e) => {
                return Err(e);
            },
        };
        let i = match find_char(line_text.as_str(), ' ') {
            Some(i) => i,
            None => {
                continue ;
            },
        };
        let line_hash = line_text.as_str().substring_char(0, i);
        if crate::text::str_eq(line_hash, head_hash.as_str()) {
            match second_field(line_text.as_str()) {
                Some(s) => {
                    let ghost raw = s@;
                    let stripped = strip_newline(s);
                    proof {
                        assert(stripped@ == strip_nl(raw));
                        assert(second_field_found(line_text@, raw));
                        let i2 = choose|i2: int| #[trigger] second_field_at(line_text@, i2, raw);
                        assert(i2 == i as int) by {
                            if i2 < i as int {
                                assert(line_text@[i2] != ' ');
                            } else if i2 > i as int {
                                assert(line_text@[i as int] != ' ');
                            }
                        }
                        assert(line_hash@ =~= line_text@.take(i as int));
                        assert(adv_ref_line_match(line@, head_hash@, stripped@)) by {
                            assert(second_field_at(decode_utf8(line@), i as int, raw));
                            assert(decode_utf8(line@).take(i as int) == head_hash@);
                        }
                        assert(adv_matched(body@, head_hash@, stripped@));
                    }
                    head_ref = Some(stripped);
                },
                None => {},
            }
        }
    }
    let full_ref = match head_ref {
        Some(s) => s,
        None => {
            return Err(GitError::NotFound);
        },
    };
    let n = full_ref.as_str().unicode_len();
    let short = match rfind_char(full_ref.as_str(), '/') {
        Some(i) => String::from_str(full_ref.as_str().substring_char(i + 1, n)),
        None => full_ref,
    };
    proof {
        if short@.contains('/') {
            let j = choose|j: int| 0 <= j < short@.len() && short@[j] == '/';
            assert(short@[j] != '/');
        }
        let (lp, line) = choose|lp: int, line: Seq<u8>|
            #[trigger] adv_line_at(body@, lp, line) && adv_ref_line_match(
                line,
                head_hash@,
                full_ref@,
            );
        assert(last_slash_suffix(full_ref@, short@)) by {
            if short@.len() < full_ref@.len() {
                assert(short@ =~= full_ref@.skip(full_ref@.len() - short@.len()));
            } else {
                assert(short@ =~= full_ref@);
            }
        }
        assert(adv_branch_of(body@, head_hash@, short@));
    }
    Ok((head_hash, short))
}

/// Position of the first NUL byte in `v`.
fn find_nul(v: &Vec<u8>) -> (r: Option<usize>)
    ensures
        match r {
            Some(k) => k < v@.len() && v@[k as int] == 0 && (forall|j: int|
                0 <= j < k ==> v@[j] != 0),
            None => forall|j: int| 0 <= j < v@.len() ==> v@[j] != 0,
        },
{
    let mut j: usize = 0;
    while j < v.len()
        invariant
            j <= v@.len(),
            forall|i: int| 0 <= i < j ==> v@[i] != 0,
        decreases v@.len() - j,
    {
        if v[j] == 0 {
            return Some(j);
        }
        j = j + 1;
    }
    None
}

} // verus!
