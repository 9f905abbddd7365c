//! Branch refs and working-tree materialization.
//!
//! The filesystem itself belongs to the surrounding binary: these
//! functions compute ref file contents and an ordered plan of
//! directories to create and files to write.
use vstd::prelude::*;
use vstd::string::{StrSliceExecFns, StringExecFns};

use crate::errors::GitError;
use crate::git_object::{
    identify_header, read_tree, reader, resolves_to, stored_kind, ObjectType, Store,
};
use crate::reader_utils::{read_n_bytes, read_rest, read_to_next_null_byte};

verus! {

/// One step of materializing a tree: create a directory, or write a
/// file with the given bytes.
pub enum CheckoutStep {
    Dir { path: String },
    File { path: String, data: Vec<u8> },
}

/// `data` is everything after the header of the object stored under
/// `id`, whose first NUL sits at `k`.
pub open spec fn object_tail_at(store: Store, id: Seq<u8>, k: int, data: Seq<u8>) -> bool {
    store.lookup(id) matches Some(d) && crate::reader_utils::first_nul_at(d, 0, k) && data
        == d.skip(k + 1)
}

/// A step never invents bytes: a file step writes the payload of some
/// stored object.
pub open spec fn step_wf(store: Store, step: CheckoutStep) -> bool {
    match step {
        CheckoutStep::Dir { .. } => true,
        CheckoutStep::File { path, data } => exists|id: Seq<u8>, k: int|
            #[trigger] object_tail_at(store, id, k, data@),
    }
}

/// The kind, declared size, and payload start a framed object's header
/// yields, as a function of the bytes.
pub open spec fn object_parse(d: Seq<u8>) -> Option<(ObjectType, nat, int)> {
    let k = crate::git_object::nul_pos(d);
    if !(0 <= k < d.len()) {
        None
    } else if !vstd::utf8::valid_utf8(d.take(k)) {
        None
    } else {
        match crate::git_object::header_fn(vstd::utf8::decode_utf8(d.take(k))) {
            None => None,
            Some(p) => Some((p.0, p.1, k + 1)),
        }
    }
}

/// The object under `id` ends its header with a NUL and the header text
/// is well-formed UTF-8 — all a blob needs to be written out.
pub open spec fn blob_tail_ok(store: Store, id: Seq<u8>) -> bool {
    store.lookup(id) matches Some(d) && {
        let k = crate::git_object::nul_pos(d);
        0 <= k < d.len() && vstd::utf8::valid_utf8(d.take(k))
    }
}

/// Everything after the header of the object under `id`.
pub open spec fn blob_tail(store: Store, id: Seq<u8>) -> Seq<u8> {
    let d = store.lookup(id)->Some_0;
    d.skip(crate::git_object::nul_pos(d) + 1)
}

/// A step, as a plain value: is it a directory, its path, its bytes.
pub open spec fn step_view(step: CheckoutStep) -> (bool, Seq<char>, Seq<u8>) {
    match step {
        CheckoutStep::Dir { path } => (true, path@, Seq::<u8>::empty()),
        CheckoutStep::File { path, data } => (false, path@, data@),
    }
}

/// The steps, as plain values, in order.
pub open spec fn step_views(steps: Seq<CheckoutStep>) -> Seq<(bool, Seq<char>, Seq<u8>)> {
    Seq::new(steps.len(), |i: int| step_view(steps[i]))
}

/// The steps that materialize the tree stored under `id` below `path`:
/// for each entry in order, a directory step and its recursive
/// materialization (mode 40000), or one file step carrying the named
/// blob's payload. `None` when anything is missing or malformed, or the
/// nesting exceeds `fuel`.
pub open spec fn materialize(store: Store, id: Seq<u8>, path: Seq<char>, fuel: nat) -> Option<
    Seq<(bool, Seq<char>, Seq<u8>)>,
>
    decreases fuel, 1int, 0int,
{
    if fuel == 0 {
        None
    } else {
        match store.lookup(id) {
            None => None,
            Some(d) => match object_parse(d) {
                None => None,
                Some(h) => if h.2 + h.1 > d.len() {
                    None
                } else {
                    match crate::git_object::tree_parse(d.subrange(h.2, h.2 + h.1)) {
                        None => None,
                        Some(ents) => materialize_entries(store, ents, path, fuel),
                    }
                },
            },
        }
    }
}

/// The steps of a run of parsed tree entries under `path`.
pub open spec fn materialize_entries(
    store: Store,
    ents: Seq<(nat, Seq<char>, Seq<u8>)>,
    path: Seq<char>,
    fuel: nat,
) -> Option<Seq<(bool, Seq<char>, Seq<u8>)>>
    decreases fuel, 0int, ents.len(),
{
    if ents.len() == 0 {
        Some(Seq::empty())
    } else {
        let e = ents[0];
        if e.0 == 40000 {
            if fuel == 0 {
                None
            } else {
                match materialize(store, e.2, path + e.1 + seq!['/'], (fuel - 1) as nat) {
                    None => None,
                    Some(sub) => match materialize_entries(store, ents.drop_first(), path, fuel) {
                        None => None,
                        Some(rest) => Some(
                            seq![(true, path + e.1, Seq::<u8>::empty())] + sub + rest,
                        ),
                    },
                }
            }
        } else {
            if !blob_tail_ok(store, e.2) {
                None
            } else {
                match materialize_entries(store, ents.drop_first(), path, fuel) {
                    None => None,
                    Some(rest) => Some(seq![(false, path + e.1, blob_tail(store, e.2))] + rest),
                }
            }
        }
    }
}

/// Checks that `hash` abbreviates a commit and returns what the branch
/// ref file must hold: the given hash and a newline.
pub fn make_branch(store: &Store, reference: &String, hash: &String) -> (r: Result<
    String,
    GitError,
>)
    requires
        store.wf(),
    ensures
        match r {
            Ok(s) => stored_kind(*store, hash@, ObjectType::Commit) && s@ == hash@ + seq!['\n'],
            Err(e) => {
                &&& e == GitError::Decode || e == GitError::NotFound || e == GitError::Ambiguous
                    || e == GitError::Io || e == GitError::WrongType
                &&& e == GitError::WrongType ==> !stored_kind(*store, hash@, ObjectType::Commit)
            },
        },
        r is Ok <==> stored_kind(*store, hash@, ObjectType::Commit),
        (exists|t: ObjectType| stored_kind(*store, hash@, t)) && !stored_kind(
            *store,
            hash@,
            ObjectType::Commit,
        ) ==> r == Err::<String, GitError>(GitError::WrongType),
{
    match crate::git_object::get_type(store, hash) {
        Ok(t) => {
            if !(t == ObjectType::Commit) {
                proof {
                    if stored_kind(*store, hash@, ObjectType::Commit) {
                        crate::git_object::lemma_stored_kind_unique(
                            *store,
                            hash@,
                            t,
                            ObjectType::Commit,
                        );
                    }
                }
                return Err(GitError::WrongType);
            }
        },
        Err(e) => {
            proof {
                assert(!stored_kind(*store, hash@, ObjectType::Commit));
            }
            return Err(e);
        },
    }
    let mut s = hash.clone();
    s.append("\n");
    proof {
        reveal_strlit("\n");
        assert("\n"@ =~= seq!['\n']);
    }
    Ok(s)
}

/// What `HEAD` must hold to point at a branch: a symbolic ref line.
pub fn head_ref_content(reference: &String) -> (r: String)
    ensures
        r@ == "ref: refs/heads/"@ + reference@ + seq!['\n'],
{
    let mut s = String::new();
    s.append("ref: refs/heads/");
    s.append(reference.as_str());
    s.append("\n");
    proof {
        reveal_strlit("\n");
        assert("\n"@ =~= seq!['\n']);
        assert(s@ =~= "ref: refs/heads/"@ + reference@ + seq!['\n']);
    }
    s
}

/// Materializes the tree `hash` abbreviates under `path`: emits the
/// steps of [`materialize`], in order. `fuel` bounds the recursion
/// depth; a store whose trees nest deeper than it holds objects is
/// rejected as malformed.
#[verifier::loop_isolation(false)]
#[verifier::rlimit(100)]
#[verifier::spinoff_prover]
pub fn construct_tree(
    store: &Store,
    path: &String,
    hash: &String,
    fuel: usize,
    out: &mut Vec<CheckoutStep>,
) -> (r: Result<(), GitError>)
    requires
        store.wf(),
    ensures
        final(out)@.len() >= old(out)@.len(),
        final(out)@.take(old(out)@.len() as int) == old(out)@,
        forall|i: int|
            old(out)@.len() <= i < final(out)@.len() ==> step_wf(*store, #[trigger] final(out)@[i]),
        r matches Err(e) ==> e == GitError::Decode || e == GitError::NotFound || e
            == GitError::Ambiguous || e == GitError::Io || e == GitError::WrongType,
        r is Ok <==> exists|id: Seq<u8>|
            #[trigger] resolves_to(*store, hash@, id) && materialize(
                *store,
                id,
                path@,
                fuel as nat,
            ) is Some,
        r is Ok ==> exists|id: Seq<u8>|
            #[trigger] resolves_to(*store, hash@, id) && (materialize(
                *store,
                id,
                path@,
                fuel as nat,
            ) matches Some(steps) && step_views(final(out)@.skip(old(out)@.len() as int))
                == steps),
    decreases fuel,
{
    if fuel == 0 {
        proof {
            assert(final(out)@.take(old(out)@.len() as int) =~= old(out)@);
        }
        return Err(GitError::Decode);
    }
    let mut tree_reader = match reader(store, hash) {
        Ok(rd) => rd,
        Err(e) => {
            proof {
                assert(out@.take(old(out)@.len() as int) =~= old(out)@);
                if exists|id: Seq<u8>|
                    #[trigger] resolves_to(*store, hash@, id) && materialize(
                        *store,
                        id,
                        path@,
                        fuel as nat,
                    ) is Some {
                    let id = choose|id: Seq<u8>|
                        #[trigger] resolves_to(*store, hash@, id) && materialize(
                            *store,
                            id,
                            path@,
                            fuel as nat,
                        ) is Some;
                    assert(crate::git_object::can_resolve(*store, hash@));
                    assert(false);
                }
            }
            return Err(e);
        },
    };
    let ghost id = choose|id: Seq<u8>|
        #[trigger] resolves_to(*store, hash@, id) && store.lookup(id) == Some(tree_reader.data@)
            && tree_reader.pos == 0;
    let ghost d = tree_reader.data@;
    let header = match read_to_next_null_byte(&mut tree_reader) {
        Ok(h) => h,
        Err(e) => {
            proof {
                assert(out@.take(old(out)@.len() as int) =~= old(out)@);
                if e == GitError::Io {
                    assert(crate::git_object::nul_pos(d) == d.len()) by {
                        crate::git_object::lemma_nul_pos_none(d);
                    }
                } else {
                    let k0 = choose|k0: int|
                        crate::reader_utils::first_nul_at(d, 0, k0) && !vstd::utf8::valid_utf8(
                            d.subrange(0, k0),
                        );
                    crate::git_object::lemma_nul_pos_at(d, k0);
                    assert(d.take(k0) =~= d.subrange(0, k0));
                }
                assert(materialize(*store, id, path@, fuel as nat) is None);
                lemma_not_materializable(*store, hash@, path@, fuel as nat, id);
            }
            return Err(e);
        },
    };
    let ghost k = tree_reader.pos - 1;
    proof {
        crate::git_object::lemma_nul_pos_at(d, k);
        assert(d.take(k) =~= d.subrange(0, k));
        vstd::utf8::encode_utf8_valid_utf8(header@);
        crate::git_object::lemma_header_fn_iff(header@);
    }
    let (_kind, length) = match identify_header(&header) {
        Ok(p) => p,
        Err(e) => {
            proof {
                assert(out@.take(old(out)@.len() as int) =~= old(out)@);
                match crate::git_object::header_fn(header@) {
                    Some(p) => {
                        assert(crate::git_object::header_parsed(header@, p.0, p.1));
                        assert(crate::git_object::header_valid(header@));
                        assert(false);
                    },
                    None => {},
                }
                assert(materialize(*store, id, path@, fuel as nat) is None);
                lemma_not_materializable(*store, hash@, path@, fuel as nat, id);
            }
            return Err(e);
        },
    };
    let ghost pos_payload = tree_reader.pos;
    proof {
        assert(object_parse(d) == Some((_kind, length as nat, k + 1)));
    }
    let tree_nodes = match read_tree(&mut tree_reader, length) {
        Ok(v) => v,
        Err(e) => {
            proof {
                assert(out@.take(old(out)@.len() as int) =~= old(out)@);
                if k + 1 + length <= d.len() {
                    assert(d.subrange(k + 1, k + 1 + length) =~= d.subrange(
                        pos_payload as int,
                        pos_payload + length,
                    ));
                }
                assert(materialize(*store, id, path@, fuel as nat) is None);
                lemma_not_materializable(*store, hash@, path@, fuel as nat, id);
            }
            return Err(e);
        },
    };
    let ghost ents = crate::git_object::tree_parse(d.subrange(k + 1, k + 1 + length))->Some_0;
    proof {
        assert(d.subrange(k + 1, k + 1 + length) =~= d.subrange(
            pos_payload as int,
            pos_payload + length,
        ));
        assert(crate::git_object::nodes_match(tree_nodes@, ents));
        crate::git_object::lemma_tree_parse_id_len(d.subrange(k + 1, k + 1 + length));
        assert(materialize(*store, id, path@, fuel as nat) == materialize_entries(
            *store,
            ents,
            path@,
            fuel as nat,
        ));
    }
    let ghost mut done: Seq<(bool, Seq<char>, Seq<u8>)> = Seq::empty();
    let mut j: usize = 0;
    proof {
        assert(ents.skip(0) =~= ents);
        match materialize_entries(*store, ents, path@, fuel as nat) {
            Some(rest) => {
                assert(Seq::<(bool, Seq<char>, Seq<u8>)>::empty() + rest =~= rest);
            },
            None => {},
        }
        assert(step_views(out@.skip(old(out)@.len() as int)) =~= done);
    }
    while j < tree_nodes.len()
        invariant
            store.wf(),
            fuel >= 1,
            j <= tree_nodes@.len(),
            out@.len() >= old(out)@.len(),
            out@.take(old(out)@.len() as int) == old(out)@,
            forall|i: int|
                old(out)@.len() <= i < out@.len() ==> step_wf(*store, #[trigger] out@[i]),
            step_views(out@.skip(old(out)@.len() as int)) == done,
            materialize_entries(*store, ents, path@, fuel as nat) == (match materialize_entries(
                *store,
                ents.skip(j as int),
                path@,
                fuel as nat,
            ) {
                None => None::<Seq<(bool, Seq<char>, Seq<u8>)>>,
                Some(rest) => Some(done + rest),
            }),
        decreases tree_nodes@.len() - j,
    {
        let node = &tree_nodes[j];
        let ghost e = ents[j as int];
        let ghost rem = ents.skip(j as int);
        let ghost before = out@;
        let ghost done0 = done;
        proof {
            assert(rem[0] == e);
            assert(rem.drop_first() =~= ents.skip(j + 1));
            assert(tree_nodes@[j as int].mode == e.0 && tree_nodes@[j as int].name@ == e.1
                && tree_nodes@[j as int].hash@ == crate::hashing::hex_of(e.2));
            assert(e.2.len() == 20);
        }
        if node.mode == 40000 {
            let mut dir_path = path.clone();
            dir_path.append(node.name.as_str());
            let mut sub_path = dir_path.clone();
            sub_path.append("/");
            proof {
                reveal_strlit("/");
                assert("/"@ =~= seq!['/']);
                assert(dir_path@ == path@ + e.1);
                assert(sub_path@ =~= path@ + e.1 + seq!['/']);
            }
            out.push(CheckoutStep::Dir { path: dir_path });
            let ghost pushed = out@;
            proof {
                assert(pushed.take(before.len() as int) =~= before);
                done = done0.push((true, path@ + e.1, Seq::<u8>::empty()));
                assert(step_views(pushed.skip(old(out)@.len() as int)) =~= done);
            }
            let outcome = construct_tree(store, &sub_path, &node.hash, fuel - 1, out);
            proof {
                assert forall|i: int|
                    old(out)@.len() <= i < out@.len() implies step_wf(
                    *store,
                    #[trigger] out@[i],
                ) by {
                    if i < pushed.len() {
                        assert(out@.take(pushed.len() as int)[i] == out@[i]);
                        assert(out@[i] == pushed[i]);
                        if i < before.len() {
                            assert(pushed[i] == before[i]);
                        } else {
                            assert(pushed[i] matches CheckoutStep::Dir { .. });
                        }
                    }
                }
                assert(out@.take(old(out)@.len() as int) =~= old(out)@) by {
                    assert(forall|i: int|
                        0 <= i < old(out)@.len() ==> out@.take(pushed.len() as int)[i]
                            == #[trigger] out@[i]);
                    assert(forall|i: int|
                        0 <= i < old(out)@.len() ==> #[trigger] pushed[i] == before[i]);
                }
                crate::git_object::lemma_hex40_resolution(*store, e.2);
            }
            match outcome {
                Ok(()) => {},
                Err(er) => {
                    proof {
                        assert(!(exists|cid: Seq<u8>|
                            #[trigger] resolves_to(*store, node.hash@, cid) && materialize(
                                *store,
                                cid,
                                sub_path@,
                                (fuel - 1) as nat,
                            ) is Some));
                        assert(materialize(*store, e.2, path@ + e.1 + seq!['/'], (fuel - 1) as nat)
                            is None) by {
                            if materialize(*store, e.2, path@ + e.1 + seq!['/'], (fuel - 1) as nat)
                                is Some {
                                if (fuel - 1) as nat == 0 {
                                    assert(false);
                                }
                                if store.lookup(e.2) is None {
                                    assert(false);
                                }
                                assert(store.contains(e.2));
                                assert(resolves_to(*store, node.hash@, e.2));
                                assert(sub_path@ == path@ + e.1 + seq!['/']);
                                assert(false);
                            }
                        }
                        assert(materialize_entries(*store, rem, path@, fuel as nat) is None);
                        lemma_not_materializable(*store, hash@, path@, fuel as nat, id);
                    }
                    return Err(er);
                },
            }
            let ghost sub_steps = choose|cid: Seq<u8>|
                #[trigger] resolves_to(*store, node.hash@, cid) && materialize(
                    *store,
                    cid,
                    sub_path@,
                    (fuel - 1) as nat,
                ) is Some;
            proof {
                let cid = sub_steps;
                assert(cid == e.2);
                let steps2 = materialize(*store, e.2, path@ + e.1 + seq!['/'], (fuel - 1) as nat);
                assert(steps2 is Some);
                let appended = out@.skip(pushed.len() as int);
                assert(step_views(appended) == steps2->Some_0) by {
                    let got = choose|cid2: Seq<u8>|
                        #[trigger] resolves_to(*store, node.hash@, cid2) && (materialize(
                            *store,
                            cid2,
                            sub_path@,
                            (fuel - 1) as nat,
                        ) matches Some(st) && step_views(out@.skip(pushed.len() as int)) == st);
                    assert(got == e.2);
                }
                done = done + steps2->Some_0;
                assert(step_views(out@.skip(old(out)@.len() as int)) =~= done) by {
                    let oldn = old(out)@.len() as int;
                    let full = out@.skip(oldn);
                    assert(appended.len() == step_views(appended).len());
                    assert(full.len() == done.len());
                    assert forall|i: int|
                        0 <= i < full.len() implies step_views(full)[i] == done[i] by {
                        if i < pushed.len() - oldn {
                            assert(out@.take(pushed.len() as int)[i + oldn] == out@[i + oldn]);
                            assert(full[i] == pushed[i + oldn]);
                            assert(pushed.skip(oldn)[i] == pushed[i + oldn]);
                            assert(step_views(pushed.skip(oldn))[i] == done0.push(
                                (true, path@ + e.1, Seq::<u8>::empty()),
                            )[i]);
                        } else {
                            assert(full[i] == out@[i + oldn]);
                            assert(appended[i - (pushed.len() - oldn)] == out@[i + oldn]);
                            assert(step_views(appended)[i - (pushed.len() - oldn)] == step_view(
                                appended[i - (pushed.len() - oldn)],
                            ));
                        }
                    }
                }
                assert(materialize_entries(*store, rem, path@, fuel as nat) == (match
                    materialize_entries(*store, ents.skip(j + 1), path@, fuel as nat) {
                    None => None::<Seq<(bool, Seq<char>, Seq<u8>)>>,
                    Some(rest) => Some(
                        seq![(true, path@ + e.1, Seq::<u8>::empty())] + steps2->Some_0 + rest,
                    ),
                }));
                match materialize_entries(*store, ents.skip(j + 1), path@, fuel as nat) {
                    Some(rest) => {
                        assert(done0 + (seq![(true, path@ + e.1, Seq::<u8>::empty())]
                            + steps2->Some_0 + rest) =~= done + rest);
                    },
                    None => {},
                }
            }
        } else {
            let ghost before_blob = out@;
            let outcome = construct_blob(store, path, &node.name, &node.hash, out);
            proof {
                assert forall|i: int|
                    old(out)@.len() <= i < out@.len() implies step_wf(
                    *store,
                    #[trigger] out@[i],
                ) by {
                    if i < before_blob.len() {
                        assert(out@.take(before_blob.len() as int)[i] == out@[i]);
                        assert(out@[i] == before_blob[i]);
                    }
                }
                assert(out@.take(old(out)@.len() as int) =~= old(out)@) by {
                    assert(forall|i: int|
                        0 <= i < old(out)@.len() ==> out@.take(before_blob.len() as int)[i]
                            == #[trigger] out@[i]);
                }
                crate::git_object::lemma_hex40_resolution(*store, e.2);
            }
            match outcome {
                Ok(()) => {},
                Err(er) => {
                    proof {
                        assert(!blob_tail_ok(*store, e.2)) by {
                            if blob_tail_ok(*store, e.2) {
                                assert(store.contains(e.2));
                                assert(resolves_to(*store, node.hash@, e.2));
                                assert(false);
                            }
                        }
                        assert(materialize_entries(*store, rem, path@, fuel as nat) is None);
                        lemma_not_materializable(*store, hash@, path@, fuel as nat, id);
                    }
                    return Err(er);
                },
            }
            proof {
                assert(exists|bid: Seq<u8>|
                    #[trigger] resolves_to(*store, node.hash@, bid) && blob_tail_ok(*store, bid)
                        && step_views(out@.skip(before_blob.len() as int)) == seq![
                        (false, path@ + node.name@, blob_tail(*store, bid)),
                    ]);
                let bid = choose|bid: Seq<u8>|
                    #[trigger] resolves_to(*store, node.hash@, bid) && blob_tail_ok(*store, bid)
                        && step_views(out@.skip(before_blob.len() as int)) == seq![
                        (false, path@ + node.name@, blob_tail(*store, bid)),
                    ];
                assert(resolves_to(*store, crate::hashing::hex_of(e.2), bid)) by {
                    assert(node.hash@ == crate::hashing::hex_of(e.2));
                    assert(resolves_to(*store, node.hash@, bid));
                }
                assert(bid == e.2);
                done = done.push((false, path@ + e.1, blob_tail(*store, e.2)));
                assert(step_views(out@.skip(old(out)@.len() as int)) =~= done) by {
                    let oldn = old(out)@.len() as int;
                    let full = out@.skip(oldn);
                    let appended = out@.skip(before_blob.len() as int);
                    assert(appended.len() == step_views(appended).len());
                    assert(appended.len() == 1);
                    assert(full.len() == done.len());
                    assert forall|i: int|
                        0 <= i < full.len() implies step_views(full)[i] == done[i] by {
                        if i < before_blob.len() - oldn {
                            assert(out@.take(before_blob.len() as int)[i + oldn] == out@[i
                                + oldn]);
                            assert(full[i] == before_blob[i + oldn]);
                            assert(before_blob.skip(oldn)[i] == before_blob[i + oldn]);
                            assert(step_views(before_blob.skip(oldn))[i] == done0[i]);
                        } else {
                            assert(full[i] == out@[i + oldn]);
                            assert(appended[i - (before_blob.len() - oldn)] == out@[i + oldn]);
                            assert(step_views(appended)[0] == step_view(appended[0]));
                        }
                    }
                }
                assert(materialize_entries(*store, rem, path@, fuel as nat) == (match
                    materialize_entries(*store, ents.skip(j + 1), path@, fuel as nat) {
                    None => None::<Seq<(bool, Seq<char>, Seq<u8>)>>,
                    Some(rest) => Some(
                        seq![(false, path@ + e.1, blob_tail(*store, e.2))] + rest,
                    ),
                }));
                match materialize_entries(*store, ents.skip(j + 1), path@, fuel as nat) {
                    Some(rest) => {
                        assert(done0 + (seq![(false, path@ + e.1, blob_tail(*store, e.2))] + rest)
                            =~= done + rest);
                    },
                    None => {},
                }
            }
        }
        j = j + 1;
    }
    proof {
        assert(ents.skip(ents.len() as int) =~= Seq::<(nat, Seq<char>, Seq<u8>)>::empty());
        assert(materialize_entries(
            *store,
            Seq::<(nat, Seq<char>, Seq<u8>)>::empty(),
            path@,
            fuel as nat,
        ) == Some(Seq::<(bool, Seq<char>, Seq<u8>)>::empty()));
        assert(done + Seq::<(bool, Seq<char>, Seq<u8>)>::empty() =~= done);
        assert(materialize_entries(*store, ents, path@, fuel as nat) == Some(done));
        assert(materialize(*store, id, path@, fuel as nat) == Some(done));
    }
    Ok(())
}

/// When the resolved object cannot be parsed or its entries cannot be
/// materialized, no resolution of the name can be materialized.
proof fn lemma_not_materializable(
    store: Store,
    name: Seq<char>,
    path: Seq<char>,
    fuel: nat,
    id: Seq<u8>,
)
    requires
        store.wf(),
        resolves_to(store, name, id),
        materialize(store, id, path, fuel) is None,
    ensures
        !(exists|id2: Seq<u8>|
            #[trigger] resolves_to(store, name, id2) && materialize(store, id2, path, fuel)
                is Some),
{
    if exists|id2: Seq<u8>|
        #[trigger] resolves_to(store, name, id2) && materialize(store, id2, path, fuel) is Some {
        let id2 = choose|id2: Seq<u8>|
            #[trigger] resolves_to(store, name, id2) && materialize(store, id2, path, fuel)
                is Some;
        crate::git_object::lemma_resolves_unique(store, name, id, id2);
    }
}

/// Emits the step that writes the blob `hash` abbreviates to
/// `<path><name>`: its stored bytes with the header removed.
#[verifier::loop_isolation(false)]
#[verifier::rlimit(100)]
#[verifier::spinoff_prover]
fn construct_blob(
    store: &Store,
    path: &String,
    name: &String,
    hash: &String,
    out: &mut Vec<CheckoutStep>,
) -> (r: Result<(), GitError>)
    requires
        store.wf(),
    ensures
        final(out)@.len() >= old(out)@.len(),
        final(out)@.take(old(out)@.len() as int) == old(out)@,
        forall|i: int|
            old(out)@.len() <= i < final(out)@.len() ==> step_wf(*store, #[trigger] final(out)@[i]),
        r matches Err(e) ==> e == GitError::Decode || e == GitError::NotFound || e
            == GitError::Ambiguous || e == GitError::Io,
        r is Ok <==> exists|id: Seq<u8>|
            #[trigger] resolves_to(*store, hash@, id) && blob_tail_ok(*store, id),
        r is Ok ==> exists|id: Seq<u8>|
            #[trigger] resolves_to(*store, hash@, id) && blob_tail_ok(*store, id) && step_views(
                final(out)@.skip(old(out)@.len() as int),
            ) == seq![(false, path@ + name@, blob_tail(*store, id))],
{
    let mut blob_reader = match reader(store, hash) {
        Ok(rd) => rd,
        Err(e) => {
            proof {
                assert(out@.take(old(out)@.len() as int) =~= old(out)@);
                if exists|id: Seq<u8>|
                    #[trigger] resolves_to(*store, hash@, id) && blob_tail_ok(*store, id) {
                    let id = choose|id: Seq<u8>|
                        #[trigger] resolves_to(*store, hash@, id) && blob_tail_ok(*store, id);
                    assert(crate::git_object::can_resolve(*store, hash@));
                    assert(false);
                }
            }
            return Err(e);
        },
    };
    let ghost id = choose|id: Seq<u8>|
        #[trigger] resolves_to(*store, hash@, id) && store.lookup(id) == Some(blob_reader.data@)
            && blob_reader.pos == 0;
    let ghost d = blob_reader.data@;
    let header = match read_to_next_null_byte(&mut blob_reader) {
        Ok(h) => h,
        Err(e) => {
            proof {
                assert(out@.take(old(out)@.len() as int) =~= old(out)@);
                if e == GitError::Io {
                    crate::git_object::lemma_nul_pos_none(d);
                } else {
                    let k0 = choose|k0: int|
                        crate::reader_utils::first_nul_at(d, 0, k0) && !vstd::utf8::valid_utf8(
                            d.subrange(0, k0),
                        );
                    crate::git_object::lemma_nul_pos_at(d, k0);
                    assert(d.take(k0) =~= d.subrange(0, k0));
                }
                if exists|id2: Seq<u8>|
                    #[trigger] resolves_to(*store, hash@, id2) && blob_tail_ok(*store, id2) {
                    let id2 = choose|id2: Seq<u8>|
                        #[trigger] resolves_to(*store, hash@, id2) && blob_tail_ok(*store, id2);
                    crate::git_object::lemma_resolves_unique(*store, hash@, id, id2);
                    assert(false);
                }
            }
            return Err(e);
        },
    };
    let ghost k = blob_reader.pos - 1;
    proof {
        crate::git_object::lemma_nul_pos_at(d, k);
        vstd::utf8::encode_utf8_valid_utf8(header@);
        assert(d.take(k) =~= d.subrange(0, k));
    }
    let data = read_rest(&mut blob_reader);
    proof {
        assert(data@ =~= d.skip(k + 1));
        assert(blob_tail_ok(*store, id));
        assert(data@ == blob_tail(*store, id));
    }
    let mut file_path = path.clone();
    file_path.append(name.as_str());
    let ghost data_view = data@;
    let step = CheckoutStep::File { path: file_path, data };
    proof {
        match &step {
            CheckoutStep::File { path: p2, data: d2 } => {
                assert(d2@ == data_view);
                assert(object_tail_at(*store, id, k, d2@));
            },
            CheckoutStep::Dir { .. } => {},
        }
        assert(step_wf(*store, step));
    }
    out.push(step);
    proof {
        assert(out@.take(old(out)@.len() as int) =~= old(out)@);
        assert(step_views(out@.skip(old(out)@.len() as int)) =~= seq![
            (false, path@ + name@, blob_tail(*store, id)),
        ]);
    }
    Ok(())
}

/// The ref contents with their final character removed: the name the
/// checkout resolves.
pub open spec fn checkout_trim(s: Seq<char>) -> Seq<char> {
    if s.len() > 0 {
        s.drop_last()
    } else {
        s
    }
}

/// The commit under `cid` names, at chars 6 through 45 after its
/// header, a tree that materializes into exactly `steps`.
pub open spec fn checkout_commit_tree(
    store: Store,
    cid: Seq<u8>,
    tid: Seq<u8>,
    steps: Seq<CheckoutStep>,
) -> bool {
    store.lookup(cid) matches Some(d) && {
        let k = crate::git_object::nul_pos(d);
        &&& k + 46 <= d.len()
        &&& resolves_to(store, vstd::utf8::decode_utf8(d.subrange(k + 6, k + 46)), tid)
        &&& (materialize(store, tid, seq!['.', '/'], checkout_fuel(store)) matches Some(st)
            && step_views(steps) == st)
    }
}

/// The commit under `cid` can be checked out via `tid`: its header is
/// sound, it is long enough to carry a 40-digit tree name, that name is
/// text and resolves to `tid`, and `tid` materializes.
pub open spec fn checkout_commit_ok(store: Store, cid: Seq<u8>, tid: Seq<u8>) -> bool {
    store.lookup(cid) matches Some(d) && {
        let k = crate::git_object::nul_pos(d);
        &&& 0 <= k < d.len()
        &&& vstd::utf8::valid_utf8(d.take(k))
        &&& k + 46 <= d.len()
        &&& vstd::utf8::valid_utf8(d.subrange(k + 6, k + 46))
        &&& resolves_to(store, vstd::utf8::decode_utf8(d.subrange(k + 6, k + 46)), tid)
        &&& materialize(store, tid, seq!['.', '/'], checkout_fuel(store)) is Some
    }
}

/// The trimmed ref contents name a commit that can be checked out.
pub open spec fn checkout_ok(store: Store, refc: Seq<char>) -> bool {
    exists|cid: Seq<u8>, tid: Seq<u8>|
        resolves_to(store, checkout_trim(refc), cid) && #[trigger] checkout_commit_ok(
            store,
            cid,
            tid,
        )
}

/// Some stored commit and tree witness the plan: the trimmed ref
/// contents name the commit, and its tree materializes into the steps.
pub open spec fn checkout_outcome(store: Store, refc: Seq<char>, steps: Seq<CheckoutStep>) -> bool {
    exists|cid: Seq<u8>, tid: Seq<u8>|
        resolves_to(store, checkout_trim(refc), cid) && #[trigger] checkout_commit_tree(
            store,
            cid,
            tid,
            steps,
        )
}

/// The recursion budget a checkout grants: one more than the store
/// holds objects.
pub open spec fn checkout_fuel(store: Store) -> nat {
    if store.entries().len() < usize::MAX {
        (store.entries().len() + 1) as nat
    } else {
        usize::MAX as nat
    }
}

/// When the resolved commit's bytes fail any shape condition, nothing
/// the ref contents name can be checked out.
proof fn lemma_checkout_commit_bad(store: Store, refc: Seq<char>, name: Seq<char>, cid: Seq<u8>)
    requires
        store.wf(),
        name == checkout_trim(refc),
        resolves_to(store, name, cid),
        forall|tid: Seq<u8>| !checkout_commit_ok(store, cid, tid),
    ensures
        !checkout_ok(store, refc),
{
    if checkout_ok(store, refc) {
        let (c2, t2) = choose|c2: Seq<u8>, t2: Seq<u8>|
            resolves_to(store, checkout_trim(refc), c2) && #[trigger] checkout_commit_ok(
                store,
                c2,
                t2,
            );
        crate::git_object::lemma_resolves_unique(store, name, cid, c2);
        assert(!checkout_commit_ok(store, cid, t2));
    }
}

/// Reads the branch ref contents, opens the commit they name, takes the
/// 40 hex digits after its `tree ` line, and plans the materialization
/// of that tree into the current directory. Also returns what `HEAD`
/// must hold afterwards.
#[verifier::rlimit(100)]
#[verifier::spinoff_prover]
pub fn checkout(store: &Store, reference: &String, ref_contents: &String) -> (r: Result<
    (String, Vec<CheckoutStep>),
    GitError,
>)
    requires
        store.wf(),
    ensures
        match r {
            Ok(p) => {
                &&& p.0@ == "ref: refs/heads/"@ + reference@ + seq!['\n']
                &&& forall|i: int| 0 <= i < p.1@.len() ==> step_wf(*store, #[trigger] p.1@[i])
                &&& checkout_outcome(*store, ref_contents@, p.1@)
            },
            Err(e) => e == GitError::Decode || e == GitError::NotFound || e == GitError::Ambiguous
                || e == GitError::Io || e == GitError::WrongType,
        },
        r is Ok <==> checkout_ok(*store, ref_contents@),
{
    let n = ref_contents.as_str().unicode_len();
    let hash = if n > 0 {
        String::from_str(ref_contents.as_str().substring_char(0, n - 1))
    } else {
        String::new()
    };
    proof {
        assert(hash@ =~= checkout_trim(ref_contents@));
    }
    let mut commit_reader = match reader(store, &hash) {
        Ok(rd) => rd,
        Err(e) => {
            proof {
                if checkout_ok(*store, ref_contents@) {
                    let (c2, t2) = choose|c2: Seq<u8>, t2: Seq<u8>|
                        resolves_to(*store, checkout_trim(ref_contents@), c2)
                            && #[trigger] checkout_commit_ok(*store, c2, t2);
                    assert(crate::git_object::can_resolve(*store, hash@));
                    assert(false);
                }
            }
            return Err(e);
        },
    };
    let ghost cid = choose|cid: Seq<u8>|
        #[trigger] resolves_to(*store, hash@, cid) && store.lookup(cid) == Some(
            commit_reader.data@,
        ) && commit_reader.pos == 0;
    let ghost cd = commit_reader.data@;
    let commit_header = match read_to_next_null_byte(&mut commit_reader) {
        Ok(h) => h,
        Err(e) => {
            proof {
                if e == GitError::Io {
                    crate::git_object::lemma_nul_pos_none(cd);
                } else {
                    let k0 = choose|k0: int|
                        crate::reader_utils::first_nul_at(cd, 0, k0) && !vstd::utf8::valid_utf8(
                            cd.subrange(0, k0),
                        );
                    crate::git_object::lemma_nul_pos_at(cd, k0);
                    assert(cd.take(k0) =~= cd.subrange(0, k0));
                }
                lemma_checkout_commit_bad(*store, ref_contents@, hash@, cid);
            }
            return Err(e);
        },
    };
    proof {
        crate::git_object::lemma_nul_pos_at(cd, commit_reader.pos - 1);
        vstd::utf8::encode_utf8_valid_utf8(commit_header@);
        assert(cd.take(commit_reader.pos - 1) =~= cd.subrange(0, commit_reader.pos - 1));
    }
    match read_n_bytes(5, &mut commit_reader) {
        Ok(_) => {},
        Err(e) => {
            proof {
                lemma_checkout_commit_bad(*store, ref_contents@, hash@, cid);
            }
            return Err(e);
        },
    }
    let hash_bytes = match read_n_bytes(40, &mut commit_reader) {
        Ok(v) => v,
        Err(e) => {
            proof {
                lemma_checkout_commit_bad(*store, ref_contents@, hash@, cid);
            }
            return Err(e);
        },
    };
    let tree_hash = match crate::reader_utils::bytes_to_string(hash_bytes.as_slice()) {
        Ok(s) => s,
        Err(e) => {
            proof {
                lemma_checkout_commit_bad(*store, ref_contents@, hash@, cid);
            }
            return Err(e);
        },
    };
    let ghost k = commit_reader.pos - 46;
    proof {
        crate::git_object::lemma_nul_pos_at(cd, k);
        assert(tree_hash@ == vstd::utf8::decode_utf8(cd.subrange(k + 6, k + 46)));
    }
    let root = String::from_str("./");
    proof {
        reveal_strlit("./");
        assert(root@ =~= seq!['.', '/']);
    }
    let fuel = if store.object_count() < usize::MAX {
        store.object_count() + 1
    } else {
        usize::MAX
    };
    proof {
        assert(fuel as nat == checkout_fuel(*store));
    }
    let mut steps: Vec<CheckoutStep> = Vec::new();
    match construct_tree(store, &root, &tree_hash, fuel, &mut steps) {
        Ok(()) => {},
        Err(e) => {
            proof {
                let k = commit_reader.pos - 46;
                assert(tree_hash@ == vstd::utf8::decode_utf8(cd.subrange(k + 6, k + 46)));
                if checkout_ok(*store, ref_contents@) {
                    let (c2, t2) = choose|c2: Seq<u8>, t2: Seq<u8>|
                        resolves_to(*store, checkout_trim(ref_contents@), c2)
                            && #[trigger] checkout_commit_ok(*store, c2, t2);
                    crate::git_object::lemma_resolves_unique(
                        *store,
                        checkout_trim(ref_contents@),
                        cid,
                        c2,
                    );
                    assert(resolves_to(*store, tree_hash@, t2));
                    assert(materialize(*store, t2, root@, fuel as nat) is Some);
                    assert(false);
                }
            }
            return Err(e);
        },
    }
    proof {
        let tid = choose|tid: Seq<u8>|
            #[trigger] resolves_to(*store, tree_hash@, tid) && (materialize(
                *store,
                tid,
                root@,
                fuel as nat,
            ) matches Some(st) && step_views(steps@.skip(0)) == st);
        assert(steps@.skip(0) =~= steps@);
        assert(resolves_to(*store, vstd::utf8::decode_utf8(cd.subrange(k + 6, k + 46)), tid));
        assert(checkout_commit_tree(*store, cid, tid, steps@));
        assert(resolves_to(*store, checkout_trim(ref_contents@), cid));
        assert(checkout_outcome(*store, ref_contents@, steps@));
        assert(checkout_commit_ok(*store, cid, tid)) by {
            vstd::utf8::encode_utf8_valid_utf8(tree_hash@);
            assert(hash_bytes@ == cd.subrange(k + 6, k + 46));
            assert(vstd::utf8::valid_utf8(cd.subrange(k + 6, k + 46)));
        }
        assert(checkout_ok(*store, ref_contents@));
    }
    Ok((head_ref_content(reference), steps))
}

} // verus!
