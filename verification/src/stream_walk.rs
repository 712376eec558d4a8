//! Streaming whole directories, and what streamed archives have in common with written ones.

use crate::builder::appended;
use crate::entry::zeros;
use crate::error::TarError;
use crate::header::Metadata;
use crate::path::{components, join, joined, parts, span_parts, Span};
use crate::stream_append::{file_headers, special_headers, with_headers};
use crate::stream_item::{Body, Files, Item};
use crate::streamer::{items_rest, Streamer, Streaming};
use vstd::prelude::*;
use vstd::slice::slice_to_vec;

verus! {

/// One file, directory or link that a walk over a directory came to.
pub struct StreamStep {
    /// Where it stands in the file system.
    pub src: Vec<u8>,
    /// Where it stands below the directory that the walk started in.
    pub below: Vec<u8>,
    /// Whether it is a directory.
    pub is_dir: bool,
    /// Whether it is a link.
    pub is_symlink: bool,
}

/// One file, directory or link that a walk over a directory came to, as a mathematical value.
#[verifier::ext_equal]
pub struct StreamPlace {
    /// Where it stands in the file system.
    pub src: Seq<u8>,
    /// Where it stands below the directory that the walk started in.
    pub below: Seq<u8>,
    /// Whether it is a directory.
    pub is_dir: bool,
    /// Whether it is a link.
    pub is_symlink: bool,
}

impl View for StreamStep {
    type V = StreamPlace;

    open spec fn view(&self) -> StreamPlace {
        StreamPlace {
            src: self.src@,
            below: self.below@,
            is_dir: self.is_dir,
            is_symlink: self.is_symlink,
        }
    }
}

/// A walk over a directory and all that is in it.
///
/// The walk says where to look, and is told what is there.
pub struct StreamWalk {
    stack: Vec<StreamStep>,
}

impl View for StreamWalk {
    type V = Seq<StreamPlace>;

    /// What is still to be come to, the last first.
    closed spec fn view(&self) -> Seq<StreamPlace> {
        self.stack@.map_values(|s: StreamStep| s@)
    }
}

/// The places of what was found in a directory: names, and whether they are directories or links.
pub open spec fn places_in(dir: StreamPlace, names: Seq<(Vec<u8>, bool, bool)>) -> Seq<StreamPlace> {
    names.map_values(
        |n: (Vec<u8>, bool, bool)|
            StreamPlace {
                src: joined(dir.src, n.0@),
                below: joined(dir.below, n.0@),
                is_dir: n.1,
                is_symlink: n.2,
            },
    )
}

impl StreamWalk {
    /// Returns the next file, directory or link: of what was found last, the last.
    pub fn next(&mut self) -> (r: Option<StreamStep>)
        ensures
            match r {
                Some(step) => old(self)@.len() > 0 && step@ == old(self)@.last() && final(self)@
                    == old(self)@.drop_last(),
                None => old(self)@.len() == 0 && final(self)@ == old(self)@,
            },
    {
        let ghost before = self.stack@;
        let r: Option<StreamStep> = self.stack.pop();
        assert(r is Some ==> self@ =~= before.map_values(|s: StreamStep| s@).drop_last());
        r
    }

    /// Takes note of what was found in a directory.
    ///
    /// Each name comes with whether it is a directory and whether it is a link.
    pub fn found(&mut self, dir: &StreamStep, names: &Vec<(Vec<u8>, bool, bool)>)
        ensures
            final(self)@ == old(self)@ + places_in(dir@, names@),
    {
        let ghost before = self@;
        let ghost all = places_in(dir@, names@);
        let mut i: usize = 0;
        while i < names.len()
            invariant
                i <= names@.len(),
                all == places_in(dir@, names@),
                self@ =~= before + all.take(i as int),
            decreases names@.len() - i,
        {
            let ghost now = self.stack@;
            let name: &[u8] = names[i].0.as_slice();
            let step: StreamStep = StreamStep {
                src: join(dir.src.as_slice(), name),
                below: join(dir.below.as_slice(), name),
                is_dir: names[i].1,
                is_symlink: names[i].2,
            };
            self.stack.push(step);
            assert(self@ =~= now.map_values(|s: StreamStep| s@).push(step@));
            assert(step@ == all[i as int]);
            i = i + 1;
        }
        assert(all.take(i as int) =~= all);
    }
}

/// Where what a walk came to is looked for below `path`. A directory whose place has no component
/// is looked for nowhere.
pub open spec fn stream_place(path: Seq<u8>, step: StreamPlace, descends: bool) -> Option<Seq<u8>> {
    let dest = joined(path, step.below);
    if descends && parts(dest).len() == 0 {
        None
    } else {
        Some(dest)
    }
}

impl StreamStep {
    /// Returns where this is looked for below `path`, unless it is looked for nowhere.
    pub fn place_in(&self, path: &[u8], descends: bool) -> (r: Option<Vec<u8>>)
        ensures
            match stream_place(path@, self@, descends) {
                Some(dest) => r matches Some(d) && d@ == dest,
                None => r is None,
            },
    {
        let dest: Vec<u8> = join(path, self.below.as_slice());
        if descends {
            let spans: Vec<Span<'_>> = components(dest.as_slice());
            assert(span_parts(spans@).len() == spans@.len());
            if spans.len() == 0 {
                return None;
            }
        }
        Some(dest)
    }
}

/// What is added to a streamed archive for what a walk came to, and the outcome.
///
/// A directory whose place has no component is not added. The bytes of a file are those at its
/// place below `path`, and its name is where the walk came to it.
pub open spec fn walked_added(
    s: Streaming,
    path: Seq<u8>,
    step: StreamPlace,
    descends: bool,
    is_file: bool,
    meta: Metadata,
    link_name: Seq<u8>,
) -> (Streaming, Result<(), TarError>) {
    match stream_place(path, step, descends) {
        None => (s, Ok(())),
        Some(dest) => if descends || is_file {
            with_headers(
                s,
                file_headers(step.src, meta, link_name, s.mode),
                Body::OnDisk(dest, s.follow),
            )
        } else {
            with_headers(s, special_headers(dest, meta, s.mode), Body::Nothing)
        },
    }
}

impl Streamer {
    /// Starts to add a directory and all that is in it.
    ///
    /// The walk goes over the directory in the file system. What it comes to is added by
    /// `append_walked`.
    pub fn append_dir_all(&self, src_path: &[u8]) -> (r: StreamWalk)
        ensures
            r@ == seq![
                StreamPlace {
                    src: src_path@,
                    below: Seq::empty(),
                    is_dir: true,
                    is_symlink: false,
                },
            ],
    {
        let mut stack: Vec<StreamStep> = Vec::new();
        let none: Vec<u8> = Vec::new();
        assert(none@ =~= Seq::empty());
        stack.push(
            StreamStep {
                src: slice_to_vec(src_path),
                below: none,
                is_dir: true,
                is_symlink: false,
            },
        );
        let r: StreamWalk = StreamWalk { stack };
        assert(r@ =~= seq![
            StreamPlace {
                src: src_path@,
                below: Seq::empty(),
                is_dir: true,
                is_symlink: false,
            },
        ]);
        r
    }

    /// Returns whether the walk goes into what it came to: into directories, and into links to
    /// directories if links are followed.
    pub fn descends(&self, step: &StreamStep, leads_to_dir: bool) -> (r: bool)
        ensures
            r == (step@.is_dir || (step@.is_symlink && self@.follow && leads_to_dir)),
    {
        step.is_dir || (step.is_symlink && self.follows() && leads_to_dir)
    }

    /// Adds what a walk came to.
    ///
    /// `is_file` says whether the walk came to a file. `meta` and `link_name` are what the file
    /// system says of its place below `path`.
    pub fn append_walked(
        &mut self,
        path: &[u8],
        step: &StreamStep,
        descends: bool,
        is_file: bool,
        meta: &Metadata,
        link_name: &[u8],
    ) -> (r: Result<(), TarError>)
        requires
            old(self).wf(),
        ensures
            final(self).wf(),
            (final(self)@, r) == walked_added(
                old(self)@,
                path@,
                step@,
                descends,
                is_file,
                *meta,
                link_name@,
            ),
    {
        let dest: Vec<u8> = match step.place_in(path, descends) {
            Some(dest) => dest,
            None => {
                return Ok(());
            },
        };
        if descends {
            self.append_dir(step.src.as_slice(), dest.as_slice(), meta, link_name)
        } else if is_file {
            self.append_path_with_name(dest.as_slice(), step.src.as_slice(), meta, link_name)
        } else {
            self.append_special(dest.as_slice(), meta)
        }
    }
}

proof fn lemma_rest_more(items: Seq<Item>, it: Item, i: int, files: Files)
    requires
        0 <= i <= items.len(),
    ensures
        items_rest(items.push(it), i, files) == items_rest(items, i, files) + it.rest(files),
    decreases items.len() - i,
{
    let more = items.push(it);
    if i == items.len() {
        assert(items_rest(more, i + 1, files) =~= Seq::empty());
        assert(items_rest(more, i, files) =~= it.rest(files));
        assert(items_rest(items, i, files) + it.rest(files) =~= it.rest(files));
    } else {
        lemma_rest_more(items, it, i + 1, files);
        assert(items_rest(more, i, files) =~= items_rest(items, i, files) + it.rest(files));
    }
}

/// What is added to a streamed archive is streamed behind what was added before, and the zeros
/// at the end stay where they are.
pub proof fn law_streamed_in_order(s: Streaming, it: Item, files: Files)
    requires
        0 <= s.current <= s.items.len(),
    ensures
        s.with_item(it).rest(files) == items_rest(s.items, s.current, files) + it.rest(files)
            + zeros(s.finish),
{
    lemma_rest_more(s.items, it, s.current, files);
}

/// A header and bytes, or a file with these bytes, are streamed as they are written to an
/// archive: the header, the bytes, and zeros up to a whole block.
pub proof fn law_streamed_as_written(
    header: Seq<u8>,
    data: Seq<u8>,
    path: Seq<u8>,
    follow: bool,
    files: Files,
)
    requires
        files(path, follow) == Some(data),
    ensures
        Item::fresh(header, Body::Stored(data)).rest(files) == appended(
            Seq::empty(),
            header,
            data,
        ),
        Item::fresh(header, Body::OnDisk(path, follow)).rest(files) == appended(
            Seq::empty(),
            header,
            data,
        ),
{
    assert(data.skip(0) =~= data);
    assert(Item::fresh(header, Body::Stored(data)).rest(files) =~= appended(
        Seq::empty(),
        header,
        data,
    ));
    assert(Item::fresh(header, Body::OnDisk(path, follow)).rest(files) =~= appended(
        Seq::empty(),
        header,
        data,
    ));
}

} // verus!
