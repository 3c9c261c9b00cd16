//! The probe of a file, step by step.
//!
//! A probe asks the cache first. On a miss it checks that the file exists, has ffprobe tell the
//! streams, reads and checks what it told, has ffprobe tell the keyframes, and has the metadata
//! kept. Each state says what is to be done next; what came of it is the event that leads to the
//! state after it.
use crate::binary64::Binary64;
use crate::error::{Failure, ProbeError};
use crate::ffprobe::{
    document_read, keyframe_arguments, keyframe_invocation, keyframes_found, keyframes_read,
    lemma_keyframes_found, run, run_keyframe_pass, stream_arguments, stream_invocation, Invocation,
    Outcome,
};
use crate::json::{json_document, json_of};
use crate::keyframes::arranged;
use crate::media_info::{MediaInfo, MediaInfoMap, Metadata};
use crate::parser::{
    durations_read, lemma_failure_path, lemma_metadata_of, metadata_of, parse, probed, Durations,
};
use crate::paths::{owned_path, path_identity, PathMap};
use crate::reading::reads_all;
use crate::validator::{failure, lemma_check_path, lemma_checks_ignore, validate};
use serde_json::Value;
use std::path::{Path, PathBuf};
use vstd::prelude::*;

verus! {

// ─── Stages ───

/// What is made of metadata that was read: it must pass the checks.
pub open spec fn accepted(read: Result<Metadata, Failure>) -> Result<Metadata, Failure> {
    match read {
        Ok(m) => match failure(m) {
            Some(f) => Err(f),
            None => Ok(m),
        },
        Err(f) => Err(f),
    }
}

/// Whether the streams of a file were examined as they must be: the document that ffprobe wrote
/// is read, and the metadata must pass the checks.
pub open spec fn examined<F: Fn(&str) -> Option<Binary64>>(
    path: PathBuf,
    outcome: Outcome,
    read: F,
    r: Result<MediaInfo, ProbeError>,
) -> bool {
    exists|document: Result<Value, ProbeError>| #[trigger]
        document_read(outcome, document) && match document {
            Err(e) => r is Err && r->Err_0@ == e@,
            Ok(raw) => exists|durations: Durations| #[trigger]
                durations_read(read, json_of(raw), durations) && probed(
                    r,
                    accepted(metadata_of(path, json_of(raw), durations)),
                ),
        }
}

/// The metadata that ffprobe told of the streams, read and checked.
pub fn examine<F: Fn(&str) -> Option<Binary64>>(path: &Path, outcome: Outcome, read: F) -> (r:
    Result<MediaInfo, ProbeError>)
    requires
        reads_all(read),
    ensures
        examined(owned_path(path), outcome, read, r),
{
    let document: Result<Value, ProbeError> = run(outcome);
    let ghost told = document;
    let raw: Value = match document {
        Ok(raw) => raw,
        Err(e) => {
            assert(document_read(outcome, told));
            return Err(e);
        },
    };
    let info: MediaInfo = match parse(path, raw, read) {
        Ok(info) => info,
        Err(e) => {
            assert(document_read(outcome, told));
            return Err(e);
        },
    };
    match validate(&info) {
        Ok(()) => {
            assert(document_read(outcome, told));
            Ok(info)
        },
        Err(e) => {
            assert(document_read(outcome, told));
            Err(e)
        },
    }
}

/// The keyframes that a pass gave: none where it failed.
pub open spec fn keyframes_or_none(r: Result<Vec<Binary64>, ProbeError>) -> Seq<Binary64> {
    match r {
        Ok(v) => v@,
        Err(_) => Seq::empty(),
    }
}

/// Whether metadata was completed with the keyframes that ffprobe told, and is else as it was.
pub open spec fn completed<F: Fn(&str) -> Option<Binary64>>(
    info: Metadata,
    outcome: Outcome,
    read: F,
    r: Metadata,
) -> bool {
    exists|found: Result<Vec<Binary64>, ProbeError>| #[trigger]
        keyframes_found(outcome, read, found) && r == (Metadata {
            keyframes: keyframes_or_none(found),
            ..info
        })
}

/// The metadata with the keyframes that ffprobe told. They are a best effort: a failed pass
/// leaves none.
pub fn complete<F: Fn(&str) -> Option<Binary64>>(info: MediaInfo, outcome: Outcome, read: F) -> (r:
    MediaInfo)
    requires
        reads_all(read),
    ensures
        completed(info@, outcome, read, r@),
{
    let found: Result<Vec<Binary64>, ProbeError> = run_keyframe_pass(outcome, read);
    let ghost pass = found;
    let mut r: MediaInfo = info;
    r.keyframes = match found {
        Ok(v) => v,
        Err(_) => Vec::new(),
    };
    assert(keyframes_found(outcome, read, pass));
    assert(r@ =~= (Metadata { keyframes: keyframes_or_none(pass), ..info@ }));
    r
}

// ─── States ───

/// How far the probe of a file is, and what is to be done next.
#[derive(Debug)]
pub enum ProbeState {
    /// Ask the cache for the file.
    LookUp,
    /// Check that the file exists.
    CheckFile,
    /// Have ffprobe tell the streams.
    ProbeStreams(Invocation),
    /// Have ffprobe tell the keyframes of the file that has this metadata.
    ProbeKeyframes(MediaInfo, Invocation),
    /// Have the cache keep this metadata.
    Store(MediaInfo),
    /// Nothing: this is the result.
    Done(Result<MediaInfo, ProbeError>),
}

/// What came of what was to be done.
#[derive(Debug)]
pub enum Event {
    /// What the cache had.
    CacheAnswered(Option<MediaInfo>),
    /// Whether the file exists.
    FileChecked(bool),
    /// How the process came out.
    ProcessEnded(Outcome),
    /// The cache keeps the metadata.
    Stored,
}

/// Whether `next` is the state after `state`, given what came of it. An event that answers
/// something else leaves the state as it is.
pub open spec fn follows<F: Fn(&str) -> Option<Binary64>>(
    path: PathBuf,
    state: ProbeState,
    event: Event,
    read: F,
    next: ProbeState,
) -> bool {
    match (state, event) {
        (ProbeState::LookUp, Event::CacheAnswered(Some(info))) => next == ProbeState::Done(
            Ok(info),
        ),
        (ProbeState::LookUp, Event::CacheAnswered(None)) => next is CheckFile,
        (ProbeState::CheckFile, Event::FileChecked(true)) => next matches ProbeState::ProbeStreams(
            i,
        ) && i.invokes(stream_arguments(), path),
        (ProbeState::CheckFile, Event::FileChecked(false)) => next matches ProbeState::Done(
            Err(e),
        ) && e@ == Failure::InvalidFile(path),
        (ProbeState::ProbeStreams(_), Event::ProcessEnded(outcome)) => match next {
            ProbeState::ProbeKeyframes(info, i) => examined(
                path,
                outcome,
                read,
                Ok::<MediaInfo, ProbeError>(info),
            ) && i.invokes(keyframe_arguments(), path),
            ProbeState::Done(Err(e)) => examined(
                path,
                outcome,
                read,
                Err::<MediaInfo, ProbeError>(e),
            ),
            _ => false,
        },
        (ProbeState::ProbeKeyframes(info, _), Event::ProcessEnded(outcome)) => next matches
            ProbeState::Store(full) && completed(info@, outcome, read, full@),
        (ProbeState::Store(info), Event::Stored) => next == ProbeState::Done(Ok(info)),
        _ => next == state,
    }
}

/// The state after `state`, given what came of it.
pub fn advance<F: Fn(&str) -> Option<Binary64>>(
    path: &Path,
    state: ProbeState,
    event: Event,
    read: F,
) -> (next: ProbeState)
    requires
        reads_all(read),
    ensures
        follows(owned_path(path), state, event, read, next),
{
    match (state, event) {
        (ProbeState::LookUp, Event::CacheAnswered(Some(info))) => ProbeState::Done(Ok(info)),
        (ProbeState::LookUp, Event::CacheAnswered(None)) => ProbeState::CheckFile,
        (ProbeState::CheckFile, Event::FileChecked(exists)) => match stream_invocation(
            path,
            exists,
        ) {
            Ok(i) => ProbeState::ProbeStreams(i),
            Err(e) => ProbeState::Done(Err(e)),
        },
        (ProbeState::ProbeStreams(_), Event::ProcessEnded(outcome)) => match examine(
            path,
            outcome,
            read,
        ) {
            Ok(info) => ProbeState::ProbeKeyframes(info, keyframe_invocation(path)),
            Err(e) => ProbeState::Done(Err(e)),
        },
        (ProbeState::ProbeKeyframes(info, _), Event::ProcessEnded(outcome)) => ProbeState::Store(
            complete(info, outcome, read),
        ),
        (ProbeState::Store(info), Event::Stored) => ProbeState::Done(Ok(info)),
        (state, _) => state,
    }
}

// ─── Many files ───

/// The map from the first `n` paths to the results in the same places. Of equal paths the later
/// result counts.
pub open spec fn collected(paths: Seq<PathBuf>, results: Seq<MediaInfo>, n: nat) -> Map<
    int,
    (PathBuf, MediaInfo),
>
    decreases n,
{
    if n == 0 {
        Map::empty()
    } else {
        let before = collected(paths, results, (n - 1) as nat);
        let path = paths[n - 1];
        let k = path_identity(path);
        let spelling = if before.dom().contains(k) {
            before[k].0
        } else {
            path
        };
        before.insert(k, (spelling, results[n - 1]))
    }
}

/// The lesser of two lengths.
pub open spec fn shorter(a: nat, b: nat) -> nat {
    if a <= b {
        a
    } else {
        b
    }
}

/// The map from paths to the results in the same places. What is left over of the longer list
/// does not count.
pub fn collect(paths: &Vec<PathBuf>, results: Vec<MediaInfo>) -> (r: MediaInfoMap)
    ensures
        r.wf(),
        r@ == collected(paths@, results@, shorter(paths@.len(), results@.len())),
        forall|i: int|
            0 <= i < paths@.len() && i < results@.len() ==> r@.dom().contains(
                path_identity(#[trigger] paths@[i]),
            ),
        forall|i: int|
            0 <= i < paths@.len() && i < results@.len() && (forall|j: int|
                i < j < paths@.len() && j < results@.len() ==> path_identity(#[trigger] paths@[j])
                    != path_identity(paths@[i])) ==> r@[path_identity(#[trigger] paths@[i])].1
                == results@[i],
{
    let mut r: MediaInfoMap = PathMap::new();
    let mut i: usize = 0;
    let ghost all = results@;
    for info in it: results
        invariant
            i <= paths.len(),
            i == shorter(paths@.len(), it.index() as nat),
            it.seq() == all,
            r.wf(),
            r@ == collected(paths@, all, i as nat),
    {
        if i < paths.len() {
            r.insert(paths[i].as_path(), info);
            i = i + 1;
        }
    }
    proof {
        lemma_collected(paths@, all);
    }
    r
}

// ─── Laws ───

/// How many steps are left at most until a probe ends.
pub open spec fn steps_left(state: ProbeState) -> nat {
    match state {
        ProbeState::LookUp => 5,
        ProbeState::CheckFile => 4,
        ProbeState::ProbeStreams(_) => 3,
        ProbeState::ProbeKeyframes(_, _) => 2,
        ProbeState::Store(_) => 1,
        ProbeState::Done(_) => 0,
    }
}

/// Whether the event says what came of what the state asks for.
pub open spec fn answers(state: ProbeState, event: Event) -> bool {
    match state {
        ProbeState::LookUp => event is CacheAnswered,
        ProbeState::CheckFile => event is FileChecked,
        ProbeState::ProbeStreams(_) => event is ProcessEnded,
        ProbeState::ProbeKeyframes(_, _) => event is ProcessEnded,
        ProbeState::Store(_) => event is Stored,
        ProbeState::Done(_) => false,
    }
}

/// Each answer brings a probe nearer to its end.
pub proof fn lemma_progress<F: Fn(&str) -> Option<Binary64>>(
    path: PathBuf,
    state: ProbeState,
    event: Event,
    read: F,
    next: ProbeState,
)
    requires
        follows(path, state, event, read, next),
        answers(state, event),
    ensures
        steps_left(next) < steps_left(state),
{
}

/// Whether what a state carries can be relied on: metadata of the probed file that passed the
/// checks, and failures that name the probed file if they name one.
pub open spec fn reliable(path: PathBuf, state: ProbeState) -> bool {
    match state {
        ProbeState::ProbeKeyframes(info, _) => info@.path == path && failure(info@) is None,
        ProbeState::Store(info) => info@.path == path && failure(info@) is None,
        ProbeState::Done(Ok(info)) => failure(info@) is None,
        ProbeState::Done(Err(e)) => e@.path() is Some ==> e@.path() == Some(path),
        _ => true,
    }
}

/// Whether what a cache answers, if it is what came about, passed the checks.
pub open spec fn reliable_answer(event: Event) -> bool {
    event matches Event::CacheAnswered(Some(info)) ==> failure(info@) is None
}

/// Only metadata that passed the checks has its keyframes probed, is kept, and is a result, as
/// long as the cache holds such metadata alone. A failure that names a file names the probed one.
pub proof fn lemma_reliable<F: Fn(&str) -> Option<Binary64>>(
    path: PathBuf,
    state: ProbeState,
    event: Event,
    read: F,
    next: ProbeState,
)
    requires
        follows(path, state, event, read, next),
        reliable(path, state),
        reliable_answer(event),
    ensures
        reliable(path, next),
{
    match (state, event) {
        (ProbeState::ProbeStreams(_), Event::ProcessEnded(outcome)) => {
            if let ProbeState::ProbeKeyframes(info, _) = next {
                lemma_examined(path, outcome, read, Ok::<MediaInfo, ProbeError>(info));
            }
            if let ProbeState::Done(Err(e)) = next {
                lemma_examined(path, outcome, read, Err::<MediaInfo, ProbeError>(e));
            }
        },
        (ProbeState::ProbeKeyframes(info, _), Event::ProcessEnded(outcome)) => {
            if let ProbeState::Store(full) = next {
                lemma_checks_ignore(info@, full@.keyframes, info@.file_size);
            }
        },
        _ => {},
    }
}

/// Examined metadata is that of the probed file, and passed the checks.
proof fn lemma_examined<F: Fn(&str) -> Option<Binary64>>(
    path: PathBuf,
    outcome: Outcome,
    read: F,
    r: Result<MediaInfo, ProbeError>,
)
    requires
        examined(path, outcome, read, r),
    ensures
        match r {
            Ok(info) => info@.path == path && failure(info@) is None,
            Err(e) => e@.path() is Some ==> e@.path() == Some(path),
        },
{
    let document = choose|document: Result<Value, ProbeError>| #[trigger]
        document_read(outcome, document) && match document {
            Err(e) => r is Err && r->Err_0@ == e@,
            Ok(raw) => exists|durations: Durations| #[trigger]
                durations_read(read, json_of(raw), durations) && probed(
                    r,
                    accepted(metadata_of(path, json_of(raw), durations)),
                ),
        };
    if let Ok(raw) = document {
        let durations = choose|durations: Durations| #[trigger]
            durations_read(read, json_of(raw), durations) && probed(
                r,
                accepted(metadata_of(path, json_of(raw), durations)),
            );
        match metadata_of(path, json_of(raw), durations) {
            Ok(m) => {
                lemma_metadata_of(path, json_of(raw), durations);
                if failure(m) is Some {
                    lemma_check_path(m);
                }
            },
            Err(_) => {
                lemma_failure_path(path, json_of(raw), durations);
            },
        }
    }
}

/// A probe that misses the cache, and whose streams pass, ends with the metadata that ffprobe told
/// of the streams and the keyframes that it told after that.
pub proof fn lemma_whole_probe<F: Fn(&str) -> Option<Binary64>>(
    path: PathBuf,
    read: F,
    streams: Outcome,
    keyframes: Outcome,
    missed: ProbeState,
    checked: ProbeState,
    told: ProbeState,
    full: ProbeState,
    end: ProbeState,
)
    requires
        follows(path, ProbeState::LookUp, Event::CacheAnswered(None), read, missed),
        follows(path, missed, Event::FileChecked(true), read, checked),
        follows(path, checked, Event::ProcessEnded(streams), read, told),
        told is ProbeKeyframes,
        follows(path, told, Event::ProcessEnded(keyframes), read, full),
        follows(path, full, Event::Stored, read, end),
    ensures
        full is Store,
        end == ProbeState::Done(Ok(full->Store_0)),
        exists|info: MediaInfo| #[trigger]
            examined(path, streams, read, Ok::<MediaInfo, ProbeError>(info)) && completed(
                info@,
                keyframes,
                read,
                full->Store_0@,
            ),
        streams matches Outcome::Exited { success, stdout, .. } && success && json_document(stdout@)
            is Some && exists|durations: Durations| #[trigger]
            durations_read(read, json_document(stdout@)->0, durations) && {
                let m = metadata_of(path, json_document(stdout@)->0, durations);
                let r = full->Store_0@;
                &&& m is Ok
                &&& r.path == m->Ok_0.path
                &&& r.duration == m->Ok_0.duration
                &&& r.fps == m->Ok_0.fps
                &&& r.resolution == m->Ok_0.resolution
                &&& r.video_codec == m->Ok_0.video_codec
                &&& r.pixel_fmt == m->Ok_0.pixel_fmt
                &&& r.audio_sr == m->Ok_0.audio_sr
                &&& r.audio_ch == m->Ok_0.audio_ch
                &&& r.audio_codec == m->Ok_0.audio_codec
                &&& r.file_size == m->Ok_0.file_size
            },
{
    assert(examined(path, streams, read, Ok::<MediaInfo, ProbeError>(told->ProbeKeyframes_0)));
    lemma_examined_metadata(path, streams, read, told->ProbeKeyframes_0);
}

/// A probe whose file does not exist ends without a process, and a failed one is not kept: what
/// is kept was asked to be kept with its keyframes, and what was kept is the result.
pub proof fn lemma_kept_is_result<F: Fn(&str) -> Option<Binary64>>(
    path: PathBuf,
    state: ProbeState,
    event: Event,
    read: F,
    next: ProbeState,
)
    requires
        follows(path, state, event, read, next),
        next != state,
    ensures
        next is ProbeStreams ==> state is CheckFile && event == Event::FileChecked(true),
        next is Store ==> state is ProbeKeyframes,
        state is Store ==> next == ProbeState::Done(Ok(state->Store_0)),
{
}

/// Each of the paths is a key of the collected map, and nothing else is.
pub proof fn lemma_collected_keys(paths: Seq<PathBuf>, results: Seq<MediaInfo>, n: nat)
    requires
        n <= paths.len(),
    ensures
        forall|k: int| #[trigger]
            collected(paths, results, n).dom().contains(k) <==> exists|i: int|
                0 <= i < n && path_identity(#[trigger] paths[i]) == k,
    decreases n,
{
    if n > 0 {
        let before = collected(paths, results, (n - 1) as nat);
        let all = collected(paths, results, n);
        lemma_collected_keys(paths, results, (n - 1) as nat);
        assert forall|k: int| #[trigger] all.dom().contains(k) <==> exists|i: int|
            0 <= i < n && path_identity(#[trigger] paths[i]) == k by {
            if before.dom().contains(k) {
                let i = choose|i: int|
                    0 <= i < n - 1 && path_identity(#[trigger] paths[i]) == k;
                assert(0 <= i < n && path_identity(paths[i]) == k);
            }
            if path_identity(paths[n - 1]) == k {
                assert(all.dom().contains(k));
            }
            if all.dom().contains(k) && !before.dom().contains(k) {
                assert(path_identity(paths[n - 1]) == k);
            }
            if exists|i: int| 0 <= i < n && path_identity(#[trigger] paths[i]) == k {
                let i = choose|i: int| 0 <= i < n && path_identity(#[trigger] paths[i]) == k;
                if i < n - 1 {
                    assert(before.dom().contains(k));
                }
            }
        }
    }
}

/// A path that does not occur again has the result in its place.
pub proof fn lemma_collected_value(paths: Seq<PathBuf>, results: Seq<MediaInfo>, n: nat, i: int)
    requires
        n <= paths.len(),
        0 <= i < n,
        forall|j: int| i < j < n ==> path_identity(#[trigger] paths[j]) != path_identity(paths[i]),
    ensures
        collected(paths, results, n).dom().contains(path_identity(paths[i])),
        collected(paths, results, n)[path_identity(paths[i])].1 == results[i],
    decreases n,
{
    if i < n - 1 {
        lemma_collected_value(paths, results, (n - 1) as nat, i);
    }
}

/// Of two lengths, the lesser is one of them, and neither is less.
pub proof fn lemma_shorter(a: nat, b: nat)
    ensures
        shorter(a, b) == a || shorter(a, b) == b,
        shorter(a, b) <= a,
        shorter(a, b) <= b,
{
}

/// Each path that has a result is a key of what is collected, and no other is. The last of equal
/// paths has the result in its place, and the first of them is the spelling that is kept.
pub proof fn lemma_collected(paths: Seq<PathBuf>, results: Seq<MediaInfo>)
    ensures
        ({
            let map = collected(paths, results, shorter(paths.len(), results.len()));
            &&& forall|i: int|
                0 <= i < paths.len() && i < results.len() ==> map.dom().contains(
                    path_identity(#[trigger] paths[i]),
                )
            &&& forall|k: int| #[trigger]
                map.dom().contains(k) ==> exists|i: int|
                    0 <= i < paths.len() && i < results.len() && path_identity(#[trigger] paths[i])
                        == k
            &&& forall|i: int|
                0 <= i < paths.len() && i < results.len() && (forall|j: int|
                    i < j < paths.len() && j < results.len() ==> path_identity(#[trigger] paths[j])
                        != path_identity(paths[i])) ==> map[path_identity(
                    #[trigger] paths[i],
                )].1 == results[i]
            &&& forall|i: int|
                0 <= i < paths.len() && i < results.len() && (forall|j: int|
                    0 <= j < i ==> path_identity(#[trigger] paths[j]) != path_identity(paths[i]))
                    ==> map[path_identity(#[trigger] paths[i])].0 == paths[i]
        }),
{
    let n = shorter(paths.len(), results.len());
    let map = collected(paths, results, n);
    lemma_shorter(paths.len(), results.len());
    lemma_collected_keys(paths, results, n);
    assert forall|i: int| 0 <= i < paths.len() && i < results.len() implies map.dom().contains(
        path_identity(#[trigger] paths[i]),
    ) by {
        assert(0 <= i < n && path_identity(paths[i]) == path_identity(paths[i]));
    }
    assert forall|i: int|
        0 <= i < paths.len() && i < results.len() && (forall|j: int|
            i < j < paths.len() && j < results.len() ==> path_identity(#[trigger] paths[j])
                != path_identity(paths[i])) implies map[path_identity(#[trigger] paths[i])].1
        == results[i] by {
        lemma_collected_value(paths, results, n, i);
    }
    assert forall|i: int|
        0 <= i < paths.len() && i < results.len() && (forall|j: int|
            0 <= j < i ==> path_identity(#[trigger] paths[j]) != path_identity(
                paths[i],
            )) implies map[path_identity(#[trigger] paths[i])].0 == paths[i] by {
        lemma_collected_spelling(paths, results, n, i);
    }
}

/// A path that did not occur before is the spelling of its key.
proof fn lemma_collected_spelling(paths: Seq<PathBuf>, results: Seq<MediaInfo>, n: nat, i: int)
    requires
        n <= paths.len(),
        0 <= i < n,
        forall|j: int| 0 <= j < i ==> path_identity(#[trigger] paths[j]) != path_identity(paths[i]),
    ensures
        collected(paths, results, n).dom().contains(path_identity(paths[i])),
        collected(paths, results, n)[path_identity(paths[i])].0 == paths[i],
    decreases n,
{
    lemma_collected_keys(paths, results, (n - 1) as nat);
    if i < n - 1 {
        lemma_collected_spelling(paths, results, (n - 1) as nat, i);
    } else {
        assert(!collected(paths, results, (n - 1) as nat).dom().contains(path_identity(paths[i])));
    }
}

/// Metadata that was read and in which nothing is wrong is accepted as it is. Else the failure is
/// what is wrong with it, or that it could not be read.
pub proof fn lemma_accepted(m: Metadata, f: Failure)
    ensures
        failure(m) is None ==> accepted(Ok::<Metadata, Failure>(m)) == Ok::<Metadata, Failure>(m),
        failure(m) matches Some(wrong) ==> accepted(Ok::<Metadata, Failure>(m)) == Err::<
            Metadata,
            Failure,
        >(wrong),
        accepted(Err::<Metadata, Failure>(f)) == Err::<Metadata, Failure>(f),
{
}

/// Metadata that came out of an examination is what the document that ffprobe wrote tells, in
/// every field, and passed the checks.
pub proof fn lemma_examined_metadata<F: Fn(&str) -> Option<Binary64>>(
    path: PathBuf,
    outcome: Outcome,
    read: F,
    info: MediaInfo,
)
    requires
        examined(path, outcome, read, Ok::<MediaInfo, ProbeError>(info)),
    ensures
        failure(info@) is None,
        outcome matches Outcome::Exited { success, stdout, .. } && success && json_document(stdout@)
            is Some && exists|durations: Durations| #[trigger]
            durations_read(read, json_document(stdout@)->0, durations) && metadata_of(
                path,
                json_document(stdout@)->0,
                durations,
            ) == Ok::<Metadata, Failure>(info@),
{
    let r = Ok::<MediaInfo, ProbeError>(info);
    let document = choose|document: Result<Value, ProbeError>| #[trigger]
        document_read(outcome, document) && match document {
            Err(e) => r is Err && r->Err_0@ == e@,
            Ok(raw) => exists|durations: Durations| #[trigger]
                durations_read(read, json_of(raw), durations) && probed(
                    r,
                    accepted(metadata_of(path, json_of(raw), durations)),
                ),
        };
    let raw = document->Ok_0;
    let durations = choose|durations: Durations| #[trigger]
        durations_read(read, json_of(raw), durations) && probed(
            r,
            accepted(metadata_of(path, json_of(raw), durations)),
        );
    assert(durations_read(read, json_of(raw), durations));
}

/// A failed examination is that of the first stage that failed: the process or its document, the
/// reading of the document, or the checks.
pub proof fn lemma_examined_failure<F: Fn(&str) -> Option<Binary64>>(
    path: PathBuf,
    outcome: Outcome,
    read: F,
    e: ProbeError,
)
    requires
        examined(path, outcome, read, Err::<MediaInfo, ProbeError>(e)),
    ensures
        match outcome {
            Outcome::NotSpawned(_) => e is Execution,
            Outcome::Exited { success, stdout, stderr } => if !success {
                e is Execution
            } else if json_document(stdout@) is None {
                e is JsonParse
            } else {
                exists|durations: Durations| #[trigger]
                    durations_read(read, json_document(stdout@)->0, durations) && match metadata_of(
                        path,
                        json_document(stdout@)->0,
                        durations,
                    ) {
                        Ok(m) => failure(m) == Some(e@),
                        Err(f) => f == e@,
                    }
            },
        },
{
    let r = Err::<MediaInfo, ProbeError>(e);
    let document = choose|document: Result<Value, ProbeError>| #[trigger]
        document_read(outcome, document) && match document {
            Err(e) => r is Err && r->Err_0@ == e@,
            Ok(raw) => exists|durations: Durations| #[trigger]
                durations_read(read, json_of(raw), durations) && probed(
                    r,
                    accepted(metadata_of(path, json_of(raw), durations)),
                ),
        };
    if let Ok(raw) = document {
        let durations = choose|durations: Durations| #[trigger]
            durations_read(read, json_of(raw), durations) && probed(
                r,
                accepted(metadata_of(path, json_of(raw), durations)),
            );
        assert(durations_read(read, json_of(raw), durations));
    }
}

/// A document that tells metadata in which nothing is wrong, however its durations are read,
/// makes an examination succeed.
pub proof fn lemma_examined_succeeds<F: Fn(&str) -> Option<Binary64>>(
    path: PathBuf,
    outcome: Outcome,
    read: F,
    r: Result<MediaInfo, ProbeError>,
)
    requires
        examined(path, outcome, read, r),
        outcome is Exited && outcome->success,
        json_document(outcome->stdout@) is Some,
        forall|durations: Durations| #[trigger]
            durations_read(read, json_document(outcome->stdout@)->0, durations) ==> {
                let m = metadata_of(path, json_document(outcome->stdout@)->0, durations);
                m is Ok && failure(m->Ok_0) is None
            },
    ensures
        r is Ok,
{
    if let Err(e) = r {
        lemma_examined_failure(path, outcome, read, e);
    }
}

/// Completing metadata changes its keyframes and nothing else. They are those of the document
/// that the keyframe pass wrote, and none where the pass failed.
pub proof fn lemma_completed<F: Fn(&str) -> Option<Binary64>>(
    info: Metadata,
    outcome: Outcome,
    read: F,
    r: Metadata,
)
    requires
        completed(info, outcome, read, r),
    ensures
        r.path == info.path,
        r.duration == info.duration,
        r.fps == info.fps,
        r.resolution == info.resolution,
        r.video_codec == info.video_codec,
        r.pixel_fmt == info.pixel_fmt,
        r.audio_sr == info.audio_sr,
        r.audio_ch == info.audio_ch,
        r.audio_codec == info.audio_codec,
        r.file_size == info.file_size,
        match outcome {
            Outcome::NotSpawned(_) => r.keyframes.len() == 0,
            Outcome::Exited { success, stdout, .. } => if success && json_document(
                stdout@,
            ) is Some {
                exists|readings: Seq<Option<Binary64>>| #[trigger]
                    keyframes_read(read, json_document(stdout@)->0, readings) && r.keyframes
                        == arranged(readings)
            } else {
                r.keyframes.len() == 0
            },
        },
{
    let found = choose|found: Result<Vec<Binary64>, ProbeError>| #[trigger]
        keyframes_found(outcome, read, found) && r == (Metadata {
            keyframes: keyframes_or_none(found),
            ..info
        });
    lemma_keyframes_found(outcome, read, found);
}

/// The steps of a probe: what the cache has is the result at once, a file that is not there is
/// the failure, the streams come before the keyframes, and what is kept is the result. What does
/// not answer a state leaves it as it is.
pub proof fn lemma_steps<F: Fn(&str) -> Option<Binary64>>(
    path: PathBuf,
    state: ProbeState,
    event: Event,
    read: F,
    next: ProbeState,
)
    requires
        follows(path, state, event, read, next),
    ensures
        state is LookUp && event is CacheAnswered && event->CacheAnswered_0 is Some ==> next
            == ProbeState::Done(Ok::<MediaInfo, ProbeError>(event->CacheAnswered_0->0)),
        state is LookUp && event is CacheAnswered && event->CacheAnswered_0 is None ==> next
            is CheckFile,
        state is CheckFile && event is FileChecked && event->FileChecked_0 ==> next is ProbeStreams
            && next->ProbeStreams_0.invokes(stream_arguments(), path),
        state is CheckFile && event is FileChecked && !event->FileChecked_0 ==> next is Done
            && next->Done_0 is Err && next->Done_0->Err_0@ == Failure::InvalidFile(path),
        state is ProbeStreams && event is ProcessEnded ==> {
            ||| next is ProbeKeyframes && next->ProbeKeyframes_1.invokes(keyframe_arguments(), path)
                && examined(
                path,
                event->ProcessEnded_0,
                read,
                Ok::<MediaInfo, ProbeError>(next->ProbeKeyframes_0),
            )
            ||| next is Done && next->Done_0 is Err && examined(
                path,
                event->ProcessEnded_0,
                read,
                next->Done_0,
            )
        },
        state is ProbeKeyframes && event is ProcessEnded ==> next is Store && completed(
            state->ProbeKeyframes_0@,
            event->ProcessEnded_0,
            read,
            next->Store_0@,
        ),
        state is Store && event is Stored ==> next == ProbeState::Done(
            Ok::<MediaInfo, ProbeError>(state->Store_0),
        ),
        state is LookUp && !(event is CacheAnswered) ==> next == state,
        state is CheckFile && !(event is FileChecked) ==> next == state,
        state is ProbeStreams && !(event is ProcessEnded) ==> next == state,
        state is ProbeKeyframes && !(event is ProcessEnded) ==> next == state,
        state is Store && !(event is Stored) ==> next == state,
        state is Done ==> next == state,
{
}

} // verus!
