//! A multipart body, part by part: text fields into memory, file parts into the
//! spool directory, bounded in total size and number of files.
//!
//! Whoever reads the stream asks here what to do with each part and chunk. On
//! rejection everything spooled so far is deleted.

use vstd::prelude::*;
use crate::path::PathBytes;
use crate::runtime;
use crate::runtime::{RequestBody, UploadedFile};
use crate::text;
use crate::web;
use crate::web::Page;

verus! {

/// The part being read.
pub enum Part {
    /// Between parts.
    Closed,
    File { field: String, filename: String, content_type: Option<String>, size: u64 },
    Field { name: String, value: Vec<u8> },
}

/// Why an upload is refused.
#[derive(Clone, Copy, PartialEq, Eq, Debug, Structural)]
pub enum Rejection {
    Malformed,
    Interrupted,
    TooManyFiles,
    TooLarge,
    /// The spool could not be written.
    Internal,
}

/// What to do with a part that starts.
#[derive(Clone, Copy, PartialEq, Eq, Debug, Structural)]
pub enum PartAction {
    /// Create a spool file for it.
    Spool,
    /// Keep it in memory.
    Collect,
    Reject(Rejection),
}

/// What to do with a chunk.
#[derive(Clone, Copy, PartialEq, Eq, Debug, Structural)]
pub enum ChunkAction {
    /// Write it to the spool file.
    Write,
    /// Nothing: it is in memory.
    Collected,
    Reject(Rejection),
}

/// An upload in progress.
pub struct Upload {
    cap: usize,
    max_files: usize,
    fields: Vec<(String, String)>,
    files: Vec<UploadedFile>,
    total: usize,
    part: Part,
}

/// The sizes of files, added up.
pub open spec fn sizes(files: Seq<UploadedFile>) -> nat
    decreases files.len(),
{
    if files.len() == 0 {
        0
    } else {
        sizes(files.drop_last()) + files.last().size as nat
    }
}

/// Bytes read of the current part.
pub open spec fn part_bytes(part: Part) -> nat {
    match part {
        Part::Closed => 0,
        Part::File { size, .. } => size as nat,
        Part::Field { value, .. } => value@.len(),
    }
}

pub struct UploadView {
    /// The most bytes all parts together may have.
    pub cap: nat,
    pub max_files: nat,
    pub fields: Seq<(Seq<char>, Seq<char>)>,
    pub files: Seq<UploadedFile>,
    /// Bytes read so far, over all parts.
    pub total: nat,
    pub part: Part,
}

impl View for Upload {
    type V = UploadView;

    closed spec fn view(&self) -> UploadView {
        UploadView {
            cap: self.cap as nat,
            max_files: self.max_files as nat,
            fields: runtime::pair_views(self.fields@),
            files: self.files@,
            total: self.total as nat,
            part: self.part,
        }
    }
}

impl UploadView {
    /// What always holds of an upload that was not rejected: both limits are kept,
    /// and no file is larger than what was read.
    pub open spec fn valid(self) -> bool {
        &&& self.total <= self.cap <= usize::MAX
        &&& self.files.len() <= self.max_files
        &&& self.part is File ==> self.files.len() < self.max_files
        &&& sizes(self.files) + part_bytes(self.part) <= self.total
    }
}

/// The page that refuses an upload.
pub open spec fn refuses(page: Page, why: Rejection, cap: nat, max_files: nat) -> bool {
    match why {
        Rejection::Malformed => web::is_text(page, 400, "400 Bad Request: malformed multipart"@),
        Rejection::Interrupted => web::is_text(page, 400, "400 Bad Request: upload interrupted"@),
        Rejection::TooManyFiles => web::is_page(
            page,
            413,
            "Payload Too Large"@,
            Some(web::too_many_files_detail(max_files)),
        ),
        Rejection::TooLarge => web::is_page(
            page,
            413,
            "Payload Too Large"@,
            Some(web::too_large_detail(cap)),
        ),
        Rejection::Internal => web::is_page(page, 500, "Internal Server Error"@, None),
    }
}

impl Upload {
    pub fn new(cap: usize, max_files: usize) -> (u: Upload)
        ensures
            u@.valid(),
            u@.cap == cap,
            u@.max_files == max_files,
            u@.fields == Seq::<(Seq<char>, Seq<char>)>::empty(),
            u@.files == Seq::<UploadedFile>::empty(),
            u@.total == 0,
            u@.part is Closed,
    {
        let u = Upload {
            cap,
            max_files,
            fields: Vec::new(),
            files: Vec::new(),
            total: 0,
            part: Part::Closed,
        };
        assert(u@.fields =~= Seq::empty());
        u
    }

    /// A part starts; a file part has a file name.
    pub fn open(
        &mut self,
        name: String,
        filename: Option<String>,
        content_type: Option<String>,
    ) -> (action: PartAction)
        requires
            old(self)@.valid(),
            old(self)@.part is Closed,
        ensures
            match filename {
                Some(f) => if old(self)@.files.len() >= old(self)@.max_files {
                    action == PartAction::Reject(Rejection::TooManyFiles) && final(self)@ == old(
                        self,
                    )@
                } else {
                    &&& action == PartAction::Spool
                    &&& final(self)@ == (UploadView {
                        part: Part::File { field: name, filename: f, content_type, size: 0 },
                        ..old(self)@
                    })
                },
                None => {
                    &&& action == PartAction::Collect
                    &&& final(self)@.part is Field
                    &&& final(self)@.part->name == name
                    &&& final(self)@.part->value@.len() == 0
                    &&& final(self)@ == (UploadView { part: final(self)@.part, ..old(self)@ })
                },
            },
            final(self)@.valid(),
    {
        match filename {
            Some(f) => {
                if self.files.len() >= self.max_files {
                    return PartAction::Reject(Rejection::TooManyFiles);
                }
                self.part = Part::File { field: name, filename: f, content_type, size: 0 };
                PartAction::Spool
            },
            None => {
                self.part = Part::Field { name, value: Vec::new() };
                PartAction::Collect
            },
        }
    }

    /// A chunk of the current part.
    pub fn chunk(&mut self, bytes: &[u8]) -> (action: ChunkAction)
        requires
            old(self)@.valid(),
            !(old(self)@.part is Closed),
        ensures
            final(self)@.valid(),
            if old(self)@.total + bytes@.len() > old(self)@.cap {
                action == ChunkAction::Reject(Rejection::TooLarge) && final(self)@ == old(self)@
            } else {
                &&& final(self)@.total == old(self)@.total + bytes@.len()
                &&& final(self)@ == (UploadView {
                    total: final(self)@.total,
                    part: final(self)@.part,
                    ..old(self)@
                })
                &&& match old(self)@.part {
                    Part::File { field, filename, content_type, size } => {
                        &&& action == ChunkAction::Write
                        &&& final(self)@.part == Part::File {
                            field,
                            filename,
                            content_type,
                            size: (size + bytes@.len()) as u64,
                        }
                        &&& final(self)@.part->size == size + bytes@.len()
                    },
                    Part::Field { name, value } => {
                        &&& action == ChunkAction::Collected
                        &&& final(self)@.part is Field
                        &&& final(self)@.part->name == name
                        &&& final(self)@.part->value@ == value@ + bytes@
                    },
                    Part::Closed => false,
                }
            },
    {
        let n: usize = bytes.len();
        if n > self.cap - self.total {
            return ChunkAction::Reject(Rejection::TooLarge);
        }
        self.total = self.total + n;
        let mut part = Part::Closed;
        std::mem::swap(&mut part, &mut self.part);
        match part {
            Part::File { field, filename, content_type, size } => {
                self.part = Part::File { field, filename, content_type, size: size + n as u64 };
                ChunkAction::Write
            },
            Part::Field { name, value } => {
                let mut value = value;
                value.extend_from_slice(bytes);
                self.part = Part::Field { name, value };
                ChunkAction::Collected
            },
            Part::Closed => ChunkAction::Collected,
        }
    }

    /// A file part ended and its spool file is kept at `path`.
    pub fn close_file(&mut self, path: PathBytes)
        requires
            old(self)@.valid(),
            old(self)@.part is File,
        ensures
            final(self)@.valid(),
            match old(self)@.part {
                Part::File { field, filename, content_type, size } => {
                    final(self)@ == (UploadView {
                        files: old(self)@.files.push(
                            UploadedFile { field, filename, content_type, size, path },
                        ),
                        part: Part::Closed,
                        ..old(self)@
                    })
                },
                _ => false,
            },
    {
        let mut part = Part::Closed;
        std::mem::swap(&mut part, &mut self.part);
        let ghost before = self.files@;
        if let Part::File { field, filename, content_type, size } = part {
            let file = UploadedFile { field, filename, content_type, size, path };
            self.files.push(file);
            assert(self.files@.drop_last() =~= before);
        }
    }

    /// A text field ended.
    pub fn close_field(&mut self)
        requires
            old(self)@.valid(),
            old(self)@.part is Field,
        ensures
            final(self)@.valid(),
            match old(self)@.part {
                Part::Field { name, value } => {
                    final(self)@ == (UploadView {
                        fields: old(self)@.fields.push((name@, text::lossy_utf8(value@))),
                        part: Part::Closed,
                        ..old(self)@
                    })
                },
                _ => false,
            },
    {
        let mut part = Part::Closed;
        std::mem::swap(&mut part, &mut self.part);
        let ghost before = self.fields@;
        if let Part::Field { name, value } = part {
            let shown = text::lossy(value.as_slice());
            self.fields.push((name, shown));
            assert(runtime::pair_views(self.fields@) =~= runtime::pair_views(before).push(
                (name@, text::lossy_utf8(value@)),
            ));
        }
    }

    /// The body of a request whose last part has ended: every limit was kept.
    pub fn finish(self) -> (body: RequestBody)
        requires
            self@.valid(),
            self@.part is Closed,
        ensures
            body is Multipart,
            runtime::pair_views(body->fields@) == self@.fields,
            body->files@ == self@.files,
            body->files@.len() <= self@.max_files,
            sizes(body->files@) <= self@.cap,
    {
        RequestBody::Multipart { fields: self.fields, files: self.files }
    }

    /// Gives an upload up: the page to answer with, and the spool files to delete,
    /// which are all those kept so far.
    pub fn reject(self, why: Rejection) -> (r: (Page, Vec<PathBytes>))
        ensures
            refuses(r.0, why, self@.cap, self@.max_files),
            r.1@.len() == self@.files.len(),
            forall|i: int| 0 <= i < r.1@.len() ==> (#[trigger] r.1@[i])@ == self@.files[i].path@,
    {
        let page = match why {
            Rejection::Malformed => web::bad_request("400 Bad Request: malformed multipart"),
            Rejection::Interrupted => web::bad_request("400 Bad Request: upload interrupted"),
            Rejection::TooManyFiles => web::payload_too_large_files(self.max_files),
            Rejection::TooLarge => web::payload_too_large(self.cap),
            Rejection::Internal => web::internal_error(),
        };
        let swept = spooled_paths(&self.files);
        (page, swept)
    }
}

/// Where the files of an upload are spooled, to delete what is left after the
/// request.
pub fn spooled_paths(files: &Vec<UploadedFile>) -> (paths: Vec<PathBytes>)
    ensures
        paths@.len() == files@.len(),
        forall|i: int| 0 <= i < paths@.len() ==> (#[trigger] paths@[i])@ == files@[i].path@,
{
    let mut paths: Vec<PathBytes> = Vec::new();
    let mut i: usize = 0;
    while i < files.len()
        invariant
            i <= files@.len(),
            paths@.len() == i,
            forall|k: int| 0 <= k < i ==> (#[trigger] paths@[k])@ == files@[k].path@,
        decreases files@.len() - i,
    {
        paths.push(crate::path::bytes_copy(files[i].path.as_slice()));
        i = i + 1;
    }
    paths
}

/// The spool files of a request body: none for a plain one.
pub fn spooled(body: &RequestBody) -> (paths: Vec<PathBytes>)
    ensures
        match body {
            RequestBody::Raw(_) => paths@.len() == 0,
            RequestBody::Multipart { files, .. } => {
                &&& paths@.len() == files@.len()
                &&& forall|i: int|
                    0 <= i < paths@.len() ==> (#[trigger] paths@[i])@ == files@[i].path@
            },
        },
{
    match body {
        RequestBody::Raw(_) => Vec::new(),
        RequestBody::Multipart { files, .. } => spooled_paths(files),
    }
}

/// Sizes add up file by file.
pub proof fn law_sizes_add_up(files: Seq<UploadedFile>, file: UploadedFile)
    ensures
        sizes(Seq::empty()) == 0,
        sizes(files.push(file)) == sizes(files) + file.size,
{
    assert(files.push(file).drop_last() =~= files);
}

/// An upload that is kept is within both limits: no more bytes and no more files than
/// allowed, the part being read counted in.
pub proof fn law_uploads_keep_their_limits(u: UploadView)
    requires
        u.valid(),
    ensures
        sizes(u.files) + part_bytes(u.part) <= u.cap,
        u.total <= u.cap,
        u.files.len() <= u.max_files,
        u.part is File ==> u.files.len() + 1 <= u.max_files,
        u.part is Closed ==> part_bytes(u.part) == 0,
{
}

/// Each reason for refusing an upload has its status: a bad body is the client's fault,
/// one over a limit is too large, and a spool that fails is the server's.
pub proof fn law_refusals_have_their_status(page: Page, cap: nat, max_files: nat)
    ensures
        refuses(page, Rejection::Malformed, cap, max_files) ==> page.status == 400 && page.body@
            == "400 Bad Request: malformed multipart"@,
        refuses(page, Rejection::Interrupted, cap, max_files) ==> page.status == 400 && page.body@
            == "400 Bad Request: upload interrupted"@,
        refuses(page, Rejection::TooManyFiles, cap, max_files) ==> page.status == 413 && page.body@
            == web::page_text(
            413,
            "Payload Too Large"@,
            Some(web::too_many_files_detail(max_files)),
        ),
        refuses(page, Rejection::TooLarge, cap, max_files) ==> page.status == 413 && page.body@
            == web::page_text(413, "Payload Too Large"@, Some(web::too_large_detail(cap))),
        refuses(page, Rejection::Internal, cap, max_files) ==> page.status == 500 && page.body@
            == web::page_text(500, "Internal Server Error"@, None),
{
}

} // verus!
