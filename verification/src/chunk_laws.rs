//! What holds of files that are cut into chunks, of where their chunks are read from, and of what
//! devices have yet to tell each other.

use vstd::prelude::*;

use crate::agreement::holds;
use crate::attachments::{assembled, pieces_fault};
use crate::batches::{chunks_behind, chunks_lacking, names_chunk, needed_by, told_behind};
use crate::exchange::{delta, exchanged, log_operations, missing, observe_all, MAX_REMOTE_OPS};
use crate::files::{
    chunk_fits, hash_text, hex_digit, hex_of, joined, manifest_of, manifest_valid, sha256,
    total_size, ChunkView, ManifestView, DEFAULT_CHUNK_SIZE,
};
use crate::log_laws::sound;
use crate::model::{
    counter_of, covers, observes, EntityKind, FieldView, MutationView, OperationView, PayloadView,
    WholeNumber,
};
use crate::rows_laws::says;
use crate::snapshot::{chunks_registered, waiting, waits};
use crate::store::{LoggedView, ReplicaView, SourceView};

verus! {

/// Pieces that stand one behind the other are joined one behind the other.
pub proof fn lemma_joined(a: Seq<Seq<u8>>, b: Seq<Seq<u8>>)
    ensures
        joined(a + b) == joined(a) + joined(b),
        a.len() == 1 ==> joined(a) == a[0],
    decreases b.len(),
{
    if b.len() > 0 {
        lemma_joined(a, b.drop_last());
        assert((a + b).drop_last() =~= a + b.drop_last());
        assert((a + b).last() == b.last());
        assert(joined(a + b) =~= joined(a) + joined(b));
    } else {
        assert(a + b =~= a);
        assert(joined(a + b) =~= joined(a) + joined(b));
    }
    if a.len() == 1 {
        assert(a.drop_last() =~= Seq::empty());
        assert(joined(a.drop_last()) =~= Seq::empty());
        assert(joined(a) =~= a[0]);
    }
}

/// Different bytes have different hexadecimal forms.
pub proof fn lemma_hex_tells_apart(a: Seq<u8>, b: Seq<u8>)
    requires
        hex_of(a) == hex_of(b),
    ensures
        a == b,
{
    assert(hex_of(a).len() == 2 * a.len());
    assert(a.len() == b.len());
    assert forall|i: int| 0 <= i < a.len() implies a[i] == b[i] by {
        assert(hex_of(a)[2 * i] == hex_of(b)[2 * i]);
        assert(hex_of(a)[2 * i + 1] == hex_of(b)[2 * i + 1]);
        assert((2 * i) / 2 == i && (2 * i) % 2 == 0);
        assert((2 * i + 1) / 2 == i && (2 * i + 1) % 2 == 1);
        assert(hex_of(a)[2 * i] == hex_digit(a[i] / 16));
        assert(hex_of(b)[2 * i] == hex_digit(b[i] / 16));
        assert(hex_of(a)[2 * i + 1] == hex_digit(a[i] % 16));
        assert(hex_of(b)[2 * i + 1] == hex_digit(b[i] % 16));
        lemma_digit_apart(a[i] / 16, b[i] / 16);
        lemma_digit_apart(a[i] % 16, b[i] % 16);
    }
    assert(a =~= b);
}

proof fn lemma_digit_apart(a: u8, b: u8)
    requires
        a < 16,
        b < 16,
        hex_digit(a) == hex_digit(b),
    ensures
        a == b,
{
    assert(hex_digit(a) as u32 == if a < 10 {
        48 + a
    } else {
        87 + a
    });
    assert(hex_digit(b) as u32 == if b < 10 {
        48 + b
    } else {
        87 + b
    });
}

proof fn lemma_cut_sizes(pieces: Seq<Seq<u8>>, chunk_size: int, n: int)
    requires
        0 <= n <= pieces.len(),
        joined(pieces).len() <= u64::MAX,
    ensures
        total_size(manifest_of(pieces, chunk_size).chunks.take(n)) == joined(pieces.take(n)).len(),
        joined(pieces.take(n)).len() <= joined(pieces).len(),
    decreases n,
{
    let chunks = manifest_of(pieces, chunk_size).chunks;
    assert(pieces =~= pieces.take(n) + pieces.skip(n));
    lemma_joined(pieces.take(n), pieces.skip(n));
    if n > 0 {
        lemma_cut_sizes(pieces, chunk_size, n - 1);
        assert(chunks.take(n).drop_last() =~= chunks.take(n - 1));
        assert(pieces.take(n).drop_last() =~= pieces.take(n - 1));
        assert(chunks.take(n).last() == chunks[n - 1]);
        assert(pieces.take(n).last() == pieces[n - 1]);
        assert(joined(pieces.take(n)).len() == joined(pieces.take(n - 1)).len()
            + pieces[n - 1].len());
    }
}

/// A chunk of a file that was registered is read from that file, and where it is read from stand
/// the bytes that its address says.
pub proof fn lemma_registered_chunk_reads(
    kept: Map<Seq<char>, SourceView>,
    path: Seq<char>,
    pieces: Seq<Seq<u8>>,
    chunk_size: int,
    i: int,
)
    requires
        0 <= i < pieces.len(),
        joined(pieces).len() <= u64::MAX,
    ensures
        ({
            let hash = hex_of(sha256(pieces[i]));
            let after = chunks_registered(kept, path, manifest_of(pieces, chunk_size).chunks);
            let source = after[hash];
            &&& after.contains_key(hash)
            &&& source.path == path
            &&& source.offset + source.size <= joined(pieces).len()
            &&& hex_of(
                sha256(
                    joined(pieces).subrange(
                        source.offset as int,
                        source.offset + source.size,
                    ),
                ),
            ) == hash
        }),
{
    let chunks = manifest_of(pieces, chunk_size).chunks;
    assert(chunks.take(pieces.len() as int) =~= chunks);
    lemma_registered_prefix(kept, path, pieces, chunk_size, i, pieces.len() as int);
}

proof fn lemma_registered_prefix(
    kept: Map<Seq<char>, SourceView>,
    path: Seq<char>,
    pieces: Seq<Seq<u8>>,
    chunk_size: int,
    i: int,
    n: int,
)
    requires
        0 <= i < n <= pieces.len(),
        joined(pieces).len() <= u64::MAX,
    ensures
        ({
            let hash = hex_of(sha256(pieces[i]));
            let after = chunks_registered(
                kept,
                path,
                manifest_of(pieces, chunk_size).chunks.take(n),
            );
            let source = after[hash];
            &&& after.contains_key(hash)
            &&& source.path == path
            &&& source.offset + source.size <= joined(pieces).len()
            &&& hex_of(
                sha256(
                    joined(pieces).subrange(
                        source.offset as int,
                        source.offset + source.size,
                    ),
                ),
            ) == hash
        }),
    decreases n,
{
    let chunks = manifest_of(pieces, chunk_size).chunks;
    let hash = hex_of(sha256(pieces[i]));
    let last = hex_of(sha256(pieces[n - 1]));
    assert(chunks.take(n).drop_last() =~= chunks.take(n - 1));
    assert(chunks.take(n).last() == chunks[n - 1]);
    if hash == last {
        lemma_cut_sizes(pieces, chunk_size, n - 1);
        lemma_cut_sizes(pieces, chunk_size, n);
        let front = pieces.take(n - 1);
        let rest = pieces.skip(n);
        assert(pieces =~= front + seq![pieces[n - 1]] + rest);
        lemma_joined(front + seq![pieces[n - 1]], rest);
        lemma_joined(front, seq![pieces[n - 1]]);
        lemma_joined(seq![pieces[n - 1]], Seq::empty());
        let offset = joined(front).len() as int;
        let whole = joined(pieces);
        assert(whole =~= joined(front) + pieces[n - 1] + joined(rest));
        assert(whole.subrange(offset, offset + pieces[n - 1].len()) =~= pieces[n - 1]);
        assert(pieces[n - 1].len() <= whole.len());
    } else {
        if i == n - 1 {
            assert(hash == last);
        }
        lemma_registered_prefix(kept, path, pieces, chunk_size, i, n - 1);
    }
}

/// A chunk that an attachment names and that is not there is fetched, and one that is there, or that
/// no attachment names which is not deleted, is not.
pub proof fn lemma_lacking_chunks(state: ReplicaView, hash: Seq<char>)
    ensures
        chunks_lacking(state).contains(hash) <==> !state.chunks.contains_key(hash) && exists|
            id: Seq<char>,
            encoded: Seq<char>,
            manifest: ManifestView,
            i: int,
        |
            #![trigger says(
                state.entities[(EntityKind::Attachment, id)],
                "manifest"@,
                FieldView::Nested { encoded, manifest: Some(manifest) },
            ), manifest.chunks[i]]
            {
                &&& state.entities.contains_key((EntityKind::Attachment, id))
                &&& state.entities[(EntityKind::Attachment, id)].deleted_at is None
                &&& says(
                    state.entities[(EntityKind::Attachment, id)],
                    "manifest"@,
                    FieldView::Nested { encoded, manifest: Some(manifest) },
                )
                &&& 0 <= i < manifest.chunks.len()
                &&& manifest.chunks[i].sha256 == hash
            },
{
    if chunks_lacking(state).contains(hash) {
        let id = choose|id: Seq<char>| #[trigger] needed_by(state, id, hash);
        let entity = state.entities[(EntityKind::Attachment, id)];
        let value = entity.metadata["manifest"@].value;
        if let FieldView::Nested { encoded, manifest: Some(manifest) } = value {
            assert(names_chunk(manifest, hash));
            let i = choose|i: int|
                0 <= i < manifest.chunks.len() && (#[trigger] manifest.chunks[i]).sha256 == hash;
            assert(says(
                entity,
                "manifest"@,
                FieldView::Nested { encoded, manifest: Some(manifest) },
            ));
            assert(manifest.chunks[i].sha256 == hash);
        }
    }
    if !state.chunks.contains_key(hash) && exists|
        id: Seq<char>,
        encoded: Seq<char>,
        manifest: ManifestView,
        i: int,
    |
        #![trigger says(
                state.entities[(EntityKind::Attachment, id)],
                "manifest"@,
                FieldView::Nested { encoded, manifest: Some(manifest) },
            ), manifest.chunks[i]]
        {
            &&& state.entities.contains_key((EntityKind::Attachment, id))
            &&& state.entities[(EntityKind::Attachment, id)].deleted_at is None
            &&& says(
                state.entities[(EntityKind::Attachment, id)],
                "manifest"@,
                FieldView::Nested { encoded, manifest: Some(manifest) },
            )
            &&& 0 <= i < manifest.chunks.len()
            &&& manifest.chunks[i].sha256 == hash
        } {
        let (id, encoded, manifest, i) = choose|
            id: Seq<char>,
            encoded: Seq<char>,
            manifest: ManifestView,
            i: int,
        |
            #![trigger says(
                state.entities[(EntityKind::Attachment, id)],
                "manifest"@,
                FieldView::Nested { encoded, manifest: Some(manifest) },
            ), manifest.chunks[i]]
            {
                &&& state.entities.contains_key((EntityKind::Attachment, id))
                &&& state.entities[(EntityKind::Attachment, id)].deleted_at is None
                &&& says(
                    state.entities[(EntityKind::Attachment, id)],
                    "manifest"@,
                    FieldView::Nested { encoded, manifest: Some(manifest) },
                )
                &&& 0 <= i < manifest.chunks.len()
                &&& manifest.chunks[i].sha256 == hash
            };
        assert(names_chunk(manifest, hash));
        assert(needed_by(state, id, hash));
    }
}

/// A chunk of a file that a device has told of behind a counter is to be sent.
pub proof fn lemma_chunks_to_send(
    log: Seq<LoggedView>,
    actor: Seq<char>,
    after: u64,
    operation: OperationView,
    encoded: Seq<char>,
    manifest: ManifestView,
    i: int,
)
    requires
        holds(log, operation),
        operation.dot.actor == actor,
        operation.dot.counter > after,
        operation.mutation == (MutationView::SetMetadata {
            field: "manifest"@,
            value: FieldView::Nested { encoded, manifest: Some(manifest) },
        }),
        0 <= i < manifest.chunks.len(),
    ensures
        chunks_behind(log, actor, after).contains(manifest.chunks[i].sha256),
{
    let k = choose|k: int| 0 <= k < log.len() && (#[trigger] log[k]).operation == operation;
    assert(names_chunk(manifest, manifest.chunks[i].sha256));
    assert(log[k].operation.dot.actor == actor);
    assert(told_behind(log, actor, after, manifest.chunks[i].sha256));
}

/// Once every device that was met has seen all that is known here, nothing waits; and what one of
/// them has not seen waits.
pub proof fn lemma_seen_by_all(state: ReplicaView, peer: Seq<char>)
    requires
        sound(state),
        state.peers.contains_key(peer),
    ensures
        (forall|other: Seq<char>| #[trigger]
            state.peers.contains_key(other) ==> covers(
                state.peers[other].frontier,
                state.frontier,
            )) ==> waiting(state).len() == 0,
        forall|i: int|
            0 <= i < state.log.len() && !observes(
                state.peers[peer].frontier,
                (#[trigger] state.log[i]).operation.dot,
            ) ==> waiting(state).contains(state.log[i]),
{
    let unseen = |entry: LoggedView| waits(state.peers, entry);
    if forall|other: Seq<char>| #[trigger]
        state.peers.contains_key(other) ==> covers(state.peers[other].frontier, state.frontier) {
        assert forall|i: int| 0 <= i < state.log.len() implies !unseen(#[trigger] state.log[i]) by {
            assert(observes(state.frontier, state.log[i].operation.dot));
            assert(state.peers.dom().contains(peer));
            if waits(state.peers, state.log[i]) {
                let other = choose|other: Seq<char>| #[trigger]
                    state.peers.contains_key(other) && counter_of(
                        state.peers[other].frontier,
                        state.log[i].operation.dot.actor,
                    ) < state.log[i].operation.dot.counter;
                assert(covers(state.peers[other].frontier, state.frontier));
                assert(counter_of(
                    state.peers[other].frontier,
                    state.log[i].operation.dot.actor,
                ) >= counter_of(state.frontier, state.log[i].operation.dot.actor));
            }
        }
        lemma_none_kept(state.log, unseen);
    }
    assert forall|i: int|
        0 <= i < state.log.len() && !observes(
            state.peers[peer].frontier,
            (#[trigger] state.log[i]).operation.dot,
        ) implies waiting(state).contains(state.log[i]) by {
        assert(unseen(state.log[i]));
        lemma_kept(state.log, unseen, i);
    }
}

proof fn lemma_none_kept(log: Seq<LoggedView>, keep: spec_fn(LoggedView) -> bool)
    requires
        forall|i: int| 0 <= i < log.len() ==> !keep(#[trigger] log[i]),
    ensures
        log.filter(keep).len() == 0,
    decreases log.len(),
{
    reveal(Seq::filter);
    if log.len() > 0 {
        let shorter = log.drop_last();
        assert forall|i: int| 0 <= i < shorter.len() implies !keep(#[trigger] shorter[i]) by {
            assert(shorter[i] == log[i]);
        }
        lemma_none_kept(shorter, keep);
        assert(!keep(log[log.len() - 1]));
    }
}

proof fn lemma_kept(log: Seq<LoggedView>, keep: spec_fn(LoggedView) -> bool, i: int)
    requires
        0 <= i < log.len(),
        keep(log[i]),
    ensures
        log.filter(keep).contains(log[i]),
    decreases log.len(),
{
    reveal(Seq::filter);
    let kept = log.filter(keep);
    if i < log.len() - 1 {
        let shorter = log.drop_last();
        lemma_kept(shorter, keep, i);
        let before = shorter.filter(keep);
        let k = before.index_of(log[i]);
        assert(kept[k] == log[i]);
    } else {
        assert(kept[kept.len() - 1] == log[i]);
    }
}

proof fn lemma_lacked(all: Seq<OperationView>, keep: spec_fn(OperationView) -> bool)
    ensures
        forall|x: OperationView| #[trigger]
            all.filter(keep).contains(x) <==> all.contains(x) && keep(x),
    decreases all.len(),
{
    reveal(Seq::filter);
    let kept = all.filter(keep);
    if all.len() > 0 {
        let h = all.drop_last();
        let inner = h.filter(keep);
        let last = all.last();
        lemma_lacked(h, keep);
        assert(all[all.len() - 1] == last);
        assert forall|x: OperationView| #[trigger] kept.contains(x) <==> all.contains(x) && keep(
            x,
        ) by {
            if kept.contains(x) {
                let k = kept.index_of(x);
                if k < inner.len() {
                    assert(inner[k] == x);
                    assert(inner.contains(x));
                    assert(all[h.index_of(x)] == x);
                }
            }
            if all.contains(x) && keep(x) {
                if x == last {
                    assert(kept[kept.len() - 1] == x);
                } else {
                    assert(h[all.index_of(x)] == x);
                    assert(h.contains(x));
                    assert(kept[inner.index_of(x)] == x);
                }
            }
        }
    }
}

/// What is answered in an exchange is what is known here and not there: nothing that the device has
/// said to have seen or has just sent, and all of the rest, unless it is more than fits into one
/// answer. What the device has then seen is remembered.
pub proof fn lemma_answer(
    state: ReplicaView,
    peer: Seq<char>,
    payload: PayloadView,
    sizes: Seq<usize>,
    now: WholeNumber,
)
    ensures
        exchanged(state, peer, payload, sizes, now) matches Ok((after, answer)) ==> {
            let seen = observe_all(payload.frontier, payload.operations);
            &&& forall|operation: OperationView| #[trigger]
                answer.operations.contains(operation) ==> holds(after.log, operation) && !observes(
                    seen,
                    operation.dot,
                )
            &&& answer.operations.len() <= MAX_REMOTE_OPS
            &&& answer.operations.len() < MAX_REMOTE_OPS ==> forall|operation: OperationView|
                #[trigger]
                holds(after.log, operation) && !observes(seen, operation.dot)
                    ==> answer.operations.contains(operation)
            &&& answer.workspace == state.workspace
            &&& after.peers.contains_key(peer)
            &&& after.peers[peer].frontier == seen
            &&& after.peers[peer].last_seen == now.value
        },
{
    if let Ok((after, answer)) = exchanged(state, peer, payload, sizes, now) {
        let seen = observe_all(payload.frontier, payload.operations);
        let lacks = |operation: OperationView| !observes(seen, operation.dot);
        let all = missing(after.log, seen);
        let said = log_operations(after.log);
        lemma_lacked(said, lacks);
        assert(all == said.filter(lacks));
        assert(answer.operations == delta(after.log, seen));
        assert forall|operation: OperationView| #[trigger]
            answer.operations.contains(operation) implies holds(after.log, operation) && !observes(
            seen,
            operation.dot,
        ) by {
            let k = answer.operations.index_of(operation);
            assert(all[k] == operation);
            assert(all.contains(operation));
            let i = said.index_of(operation);
            assert(after.log[i].operation == operation);
        }
        if answer.operations.len() < MAX_REMOTE_OPS {
            assert forall|operation: OperationView| #[trigger]
                holds(after.log, operation) && !observes(
                    seen,
                    operation.dot,
                ) implies answer.operations.contains(operation) by {
                let i = choose|i: int|
                    0 <= i < after.log.len() && (#[trigger] after.log[i]).operation == operation;
                assert(said[i] == operation);
                assert(said.contains(operation));
                assert(all.contains(operation));
            }
        }
    }
}

/// A manifest that counts says how long a file of at most 250 mebibytes is and what it hashes to, and
/// names its chunks by their hashes: each fills its place, only the last may be short, none is empty,
/// and together they are as long as the file.
pub proof fn lemma_manifest_adds_up(manifest: ManifestView)
    requires
        manifest_valid(manifest),
    ensures
        manifest.size <= 262_144_000,
        0 < manifest.chunk_size <= DEFAULT_CHUNK_SIZE,
        hash_text(manifest.file_sha256),
        total_size(manifest.chunks) == manifest.size,
        forall|i: int|
            0 <= i < manifest.chunks.len() ==> {
                let chunk = #[trigger] manifest.chunks[i];
                &&& chunk.sha256.len() == 64 && hash_text(chunk.sha256)
                &&& 0 < chunk.size <= manifest.chunk_size
                &&& i < manifest.chunks.len() - 1 ==> chunk.size == manifest.chunk_size
            },
{
    if manifest.size == 0 {
        assert(total_size(manifest.chunks) == 0);
    } else {
        assert forall|i: int| 0 <= i < manifest.chunks.len() implies {
            let chunk = #[trigger] manifest.chunks[i];
            &&& chunk.sha256.len() == 64 && hash_text(chunk.sha256)
            &&& 0 < chunk.size <= manifest.chunk_size
            &&& i < manifest.chunks.len() - 1 ==> chunk.size == manifest.chunk_size
        } by {
            assert(chunk_fits(
                manifest.chunks[i],
                i,
                manifest.chunks.len() as int,
                manifest.chunk_size as int,
            ));
        }
    }
}

/// A file that is put together from chunks is one that its manifest fits: it is as long and hashes to
/// what the manifest says, and each of its chunks was at hand and is what its address says.
pub proof fn lemma_assembled_fits(manifest: ManifestView, contents: Map<Seq<char>, Seq<u8>>)
    ensures
        assembled(manifest, contents) matches Ok(bytes) ==> {
            &&& bytes.len() == manifest.size
            &&& hex_of(sha256(bytes)) == manifest.file_sha256
            &&& forall|i: int|
                0 <= i < manifest.chunks.len() ==> contents.contains_key(
                    (#[trigger] manifest.chunks[i]).sha256,
                ) && hex_of(sha256(contents[manifest.chunks[i].sha256]))
                    == manifest.chunks[i].sha256
        },
{
    if let Ok(bytes) = assembled(manifest, contents) {
        lemma_pieces_good(manifest.chunks, contents);
    }
}

proof fn lemma_pieces_good(chunks: Seq<ChunkView>, contents: Map<Seq<char>, Seq<u8>>)
    requires
        pieces_fault(chunks, contents) is None,
    ensures
        forall|i: int|
            0 <= i < chunks.len() ==> contents.contains_key((#[trigger] chunks[i]).sha256)
                && hex_of(sha256(contents[chunks[i].sha256])) == chunks[i].sha256,
    decreases chunks.len(),
{
    if chunks.len() > 0 {
        let front = chunks.drop_last();
        lemma_pieces_good(front, contents);
        assert forall|i: int| 0 <= i < chunks.len() implies contents.contains_key(
            (#[trigger] chunks[i]).sha256,
        ) && hex_of(sha256(contents[chunks[i].sha256])) == chunks[i].sha256 by {
            if i < front.len() {
                assert(front[i] == chunks[i]);
            } else {
                assert(chunks[i] == chunks.last());
            }
        }
    }
}

} // verus!
