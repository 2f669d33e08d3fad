//! Upload requests and the per-upload task: validation of slices, the
//! sequence counter, reassembly of slices and the persisted file record.
use vstd::prelude::*;
use vstd::string::*;
use crate::decimal::{decimal, signed_decimal, to_decimal, to_signed_decimal};
use crate::filename::{
    base_name, base_name_of, first_free, get_valid_filename, last_dot, lemma_attempt_bare,
    lemma_base_name_bare, name_texts,
};
use crate::fingerprint::{fingerprint, fingerprint_matches, fingerprint_of};

verus! {

/// What the session layer vouches for about a requester.
#[derive(Clone, Copy, Debug, PartialEq, Eq, Structural)]
pub struct Token {
    pub uid: i64,
    pub permission: u8,
}

/// A request to begin an upload.
#[derive(Debug)]
pub struct BeforeUploadRequest {
    pub filename: String,
    pub parent_id: i64,
    pub size: u64,
}

/// One slice of an upload: its index, the declared fingerprint, and the bytes.
pub struct SliceUploadRequest {
    pub index: u64,
    pub hash: String,
    pub data: Vec<u8>,
}

/// The query part of a slice request: index and declared fingerprint.
#[derive(Debug)]
pub struct SliceUploadQuery {
    pub index: u64,
    pub hash: String,
}

/// A request to finish an upload.
pub struct FinishUploadRequest {
    pub upload_id: String,
}

/// The content category of a stored file, inferred from its extension.
#[derive(Clone, Copy, Debug, PartialEq, Eq, Structural)]
pub enum FileType {
    Video,
    Audio,
    Image,
    Pdf,
    Text,
    Unknown,
}

/// Error outcomes of upload operations.
#[derive(Clone, Copy, Debug, PartialEq, Eq, Structural)]
pub enum UploadError {
    /// The requester may not begin this upload.
    Auth,
    /// No in-flight upload has the given id.
    NotFound,
    /// A counter reached the largest value its type holds.
    Exhausted,
    /// The number of slices handed to a combine is not the number accepted.
    MissingSlice,
}

/// Server-side state of one in-flight upload.
#[derive(Debug)]
pub struct UploadTask {
    pub filename: String,
    pub path: String,
    pub file_type: FileType,
    pub upload_id: String,
    pub parent_id: i64,
    pub size: u64,
    pub current_index: u64,
    pub owner_id: i64,
}

/// The value of an upload task, with its texts as character sequences.
pub struct TaskView {
    pub filename: Seq<char>,
    pub path: Seq<char>,
    pub file_type: FileType,
    pub upload_id: Seq<char>,
    pub parent_id: i64,
    pub size: u64,
    pub current_index: u64,
    pub owner_id: i64,
}

impl View for UploadTask {
    type V = TaskView;

    open spec fn view(&self) -> TaskView {
        TaskView {
            filename: self.filename@,
            path: self.path@,
            file_type: self.file_type,
            upload_id: self.upload_id@,
            parent_id: self.parent_id,
            size: self.size,
            current_index: self.current_index,
            owner_id: self.owner_id,
        }
    }
}

/// A parameterised statement and its arguments, as text.
pub struct Query {
    pub sql: String,
    pub args: Vec<String>,
}

/// The category of a file extension.
pub open spec fn type_of_extension(ext: Seq<char>) -> FileType {
    if ext == "mp4"@ || ext == "mkv"@ || ext == "webm"@ || ext == "mov"@ || ext == "avi"@ {
        FileType::Video
    } else if ext == "mp3"@ || ext == "flac"@ || ext == "wav"@ || ext == "ogg"@ || ext == "aac"@ {
        FileType::Audio
    } else if ext == "jpg"@ || ext == "jpeg"@ || ext == "png"@ || ext == "gif"@ || ext == "bmp"@
        || ext == "webp"@ || ext == "svg"@ {
        FileType::Image
    } else if ext == "pdf"@ {
        FileType::Pdf
    } else if ext == "txt"@ || ext == "md"@ || ext == "json"@ || ext == "csv"@ || ext == "log"@ {
        FileType::Text
    } else {
        FileType::Unknown
    }
}

/// The category of a file name: that of the text after its last `.`, or
/// `Unknown` when it has none.
pub open spec fn file_type_of(filename: Seq<char>) -> FileType {
    let p = last_dot(filename);
    if p < 0 {
        FileType::Unknown
    } else {
        type_of_extension(filename.subrange(p + 1, filename.len() as int))
    }
}

impl FileType {
    /// The name under which the category is stored.
    pub open spec fn spec_name(self) -> Seq<char> {
        match self {
            FileType::Video => "Video"@,
            FileType::Audio => "Audio"@,
            FileType::Image => "Image"@,
            FileType::Pdf => "Pdf"@,
            FileType::Text => "Text"@,
            FileType::Unknown => "Unknown"@,
        }
    }

    /// The name under which the category is stored.
    pub fn name(&self) -> (r: String)
        ensures
            r@ == self.spec_name(),
    {
        match self {
            FileType::Video => String::from_str("Video"),
            FileType::Audio => String::from_str("Audio"),
            FileType::Image => String::from_str("Image"),
            FileType::Pdf => String::from_str("Pdf"),
            FileType::Text => String::from_str("Text"),
            FileType::Unknown => String::from_str("Unknown"),
        }
    }
}

fn same_text(a: &str, b: &str) -> (r: bool)
    ensures
        r == (a@ == b@),
{
    String::from_str(a) == String::from_str(b)
}

/// The category of a file extension.
pub fn extension_type(ext: &str) -> (r: FileType)
    ensures
        r == type_of_extension(ext@),
{
    if same_text(ext, "mp4") || same_text(ext, "mkv") || same_text(ext, "webm") || same_text(ext, "mov")
        || same_text(ext, "avi") {
        FileType::Video
    } else if same_text(ext, "mp3") || same_text(ext, "flac") || same_text(ext, "wav") || same_text(ext, "ogg")
        || same_text(ext, "aac") {
        FileType::Audio
    } else if same_text(ext, "jpg") || same_text(ext, "jpeg") || same_text(ext, "png") || same_text(ext, "gif")
        || same_text(ext, "bmp") || same_text(ext, "webp") || same_text(ext, "svg") {
        FileType::Image
    } else if same_text(ext, "pdf") {
        FileType::Pdf
    } else if same_text(ext, "txt") || same_text(ext, "md") || same_text(ext, "json") || same_text(ext, "csv")
        || same_text(ext, "log") {
        FileType::Text
    } else {
        FileType::Unknown
    }
}

/// The category of a file name, from the text after its last `.`.
pub fn infer_file_type(filename: &str) -> (r: FileType)
    ensures
        r == file_type_of(filename@),
{
    let n = filename.unicode_len();
    let mut i: usize = n;
    assert(filename@.subrange(0, n as int) =~= filename@);
    while i > 0
        invariant
            n == filename@.len(),
            i <= n,
            forall|j: int| i <= j < n ==> filename@[j] != '.',
            last_dot(filename@) == last_dot(filename@.subrange(0, i as int)),
        decreases i,
    {
        let c = filename.get_char(i - 1);
        let ghost prefix = filename@.subrange(0, i as int);
        assert(prefix.last() == c);
        if c == '.' {
            let ext = filename.substring_char(i, n);
            return extension_type(ext);
        }
        assert(prefix.drop_last() =~= filename@.subrange(0, i - 1));
        i = i - 1;
    }
    assert(filename@.subrange(0, 0) =~= Seq::<char>::empty());
    FileType::Unknown
}

/// Whether a begin request is accepted: the requester holds a permission,
/// the file name is not empty, the declared size is positive, and the
/// requester owns the destination folder.
pub open spec fn begin_accepted(req: &BeforeUploadRequest, token: Token, folder_owner_id: i64) -> bool {
    token.permission != 0 && req.filename@.len() > 0 && req.size > 0 && folder_owner_id == token.uid
}

/// Whether a slice is accepted for `task`: the requester owns the task, the
/// index is the task's next index, and the fingerprint computed over the
/// bytes equals the declared one.
pub open spec fn slice_accepted(
    task: TaskView,
    requester_uid: i64,
    index: u64,
    computed: Seq<char>,
    declared: Seq<char>,
) -> bool {
    requester_uid == task.owner_id && index == task.current_index && computed == declared
}

impl BeforeUploadRequest {
    /// Checks a begin request against the requester's token and the owner of
    /// the destination folder.
    pub fn validate(&self, token: &Token, folder_owner_id: i64) -> (r: bool)
        ensures
            r == begin_accepted(self, *token, folder_owner_id),
    {
        if token.permission == 0 {
            return false;
        }
        if self.filename.unicode_len() == 0 || self.size == 0 {
            return false;
        }
        folder_owner_id == token.uid
    }

    /// A fresh task for this request: index 0, no stored path yet, and the
    /// category inferred from the file name.
    pub fn create_task(&self, upload_id: &str, owner_id: i64) -> (r: UploadTask)
        ensures
            r@ == (TaskView {
                filename: self.filename@,
                path: Seq::empty(),
                file_type: file_type_of(self.filename@),
                upload_id: upload_id@,
                parent_id: self.parent_id,
                size: self.size,
                current_index: 0,
                owner_id,
            }),
    {
        UploadTask {
            filename: self.filename.clone(),
            size: self.size,
            upload_id: String::from_str(upload_id),
            current_index: 0,
            parent_id: self.parent_id,
            owner_id,
            path: String::new(),
            file_type: infer_file_type(self.filename.as_str()),
        }
    }
}

/// Decides a slice from a fingerprint already computed over its bytes.
pub fn slice_accepted_with(
    task: &UploadTask,
    requester_uid: i64,
    index: u64,
    computed: &str,
    declared: &str,
) -> (r: bool)
    ensures
        r == slice_accepted(task@, requester_uid, index, computed@, declared@),
{
    if requester_uid != task.owner_id {
        return false;
    }
    if index != task.current_index {
        return false;
    }
    fingerprint_matches(computed, declared)
}

/// Decides a slice for `task`: ownership, then order, then integrity.
pub fn validate_slice(
    task: &UploadTask,
    requester_uid: i64,
    index: u64,
    declared: &str,
    data: &Vec<u8>,
) -> (r: bool)
    ensures
        r == slice_accepted(task@, requester_uid, index, fingerprint_of(data@), declared@),
{
    if requester_uid != task.owner_id || index != task.current_index {
        return false;
    }
    let computed = fingerprint(data);
    slice_accepted_with(task, requester_uid, index, computed.as_str(), declared)
}

impl SliceUploadQuery {
    /// Whether the declared fingerprint equals the one computed over `data`.
    pub fn validate_hash(&self, data: &Vec<u8>) -> (r: bool)
        ensures
            r == (fingerprint_of(data@) == self.hash@),
    {
        let computed = fingerprint(data);
        fingerprint_matches(computed.as_str(), self.hash.as_str())
    }
}

/// The bytes of a sequence of slices joined in order.
pub open spec fn concat_slices(slices: Seq<Seq<u8>>) -> Seq<u8>
    decreases slices.len(),
{
    if slices.len() == 0 {
        Seq::empty()
    } else {
        concat_slices(slices.drop_last()) + slices.last()
    }
}

/// The contents of a list of byte vectors.
pub open spec fn slice_views(slices: Seq<Vec<u8>>) -> Seq<Seq<u8>> {
    slices.map_values(|v: Vec<u8>| v@)
}

/// The bytes of `slices` joined in order.
pub fn join_slices(slices: &Vec<Vec<u8>>) -> (r: Vec<u8>)
    ensures
        r@ == concat_slices(slice_views(slices@)),
{
    let mut r: Vec<u8> = Vec::new();
    let mut i: usize = 0;
    while i < slices.len()
        invariant
            i <= slices@.len(),
            r@ == concat_slices(slice_views(slices@).subrange(0, i as int)),
        decreases slices@.len() - i,
    {
        let part = &slices[i];
        let mut j: usize = 0;
        let ghost before = r@;
        while j < part.len()
            invariant
                j <= part@.len(),
                r@ == before + part@.subrange(0, j as int),
            decreases part@.len() - j,
        {
            r.push(part[j]);
            j = j + 1;
            assert(r@ =~= before + part@.subrange(0, j as int));
        }
        proof {
            let done = slice_views(slices@).subrange(0, i + 1);
            assert(done.drop_last() =~= slice_views(slices@).subrange(0, i as int));
            assert(done.last() == part@);
            assert(part@.subrange(0, part@.len() as int) =~= part@);
        }
        i = i + 1;
    }
    assert(slice_views(slices@).subrange(0, slices@.len() as int) =~= slice_views(slices@));
    r
}

/// The statement that stores a file record.
pub open spec fn insert_file_sql() -> Seq<char> {
    "insert into FILE (filename, file_type, path, size, owner_id, parent_id) values (?1, ?2, ?3, ?4, ?5, ?6)"@
}

/// The arguments of the statement that stores the record of `t`.
pub open spec fn file_record_args(t: TaskView) -> Seq<Seq<char>> {
    seq![
        t.filename,
        t.file_type.spec_name(),
        t.path,
        decimal(t.size as nat),
        signed_decimal(t.owner_id as int),
        signed_decimal(t.parent_id as int),
    ]
}

impl UploadTask {
    /// An equal, independent upload record.
    pub fn snapshot(&self) -> (r: UploadTask)
        ensures
            r@ == self@,
    {
        UploadTask {
            filename: self.filename.clone(),
            path: self.path.clone(),
            file_type: self.file_type,
            upload_id: self.upload_id.clone(),
            parent_id: self.parent_id,
            size: self.size,
            current_index: self.current_index,
            owner_id: self.owner_id,
        }
    }

    /// Counts one more accepted slice.
    pub fn advance(&mut self) -> (r: Result<(), UploadError>)
        ensures
            old(self).current_index == u64::MAX ==> r == Err::<(), UploadError>(UploadError::Exhausted)
                && final(self)@ == old(self)@,
            old(self).current_index < u64::MAX ==> r is Ok && final(self)@ == (TaskView {
                current_index: (old(self).current_index + 1) as u64,
                ..old(self)@
            }),
    {
        if self.current_index == u64::MAX {
            return Err(UploadError::Exhausted);
        }
        self.current_index = self.current_index + 1;
        Ok(())
    }

    /// Reassembles the upload from its accepted slices, given in index order,
    /// and the names already present in the destination directory. The
    /// stored name is the first free one for the last component of the file
    /// name, so it never holds a `/`; the result is the file's content.
    pub fn combine_slices(&mut self, existing: &Vec<String>, slices: &Vec<Vec<u8>>) -> (r: Result<
        Vec<u8>,
        UploadError,
    >)
        ensures
            slices@.len() != old(self).current_index <==> r == Err::<Vec<u8>, UploadError>(
                UploadError::MissingSlice,
            ),
            slices@.len() == old(self).current_index ==> r is Ok,
            r is Err ==> final(self)@ == old(self)@,
            r is Ok ==> {
                &&& r->Ok_0@ == concat_slices(slice_views(slices@))
                &&& first_free(name_texts(existing@), base_name(old(self).filename@), final(self).path@)
                &&& !final(self).path@.contains('/')
                &&& final(self)@ == (TaskView { path: final(self).path@, ..old(self)@ })
            },
    {
        if slices.len() as u64 != self.current_index {
            return Err(UploadError::MissingSlice);
        }
        let base = base_name_of(self.filename.as_str());
        let target = get_valid_filename(existing, base.as_str());
        proof {
            lemma_base_name_bare(self.filename@);
            let i = choose|i: nat|
                target@ == crate::filename::attempt(base@, i) && !name_texts(existing@).contains(target@)
                    && forall|j: nat| j < i ==> name_texts(existing@).contains(
                    #[trigger] crate::filename::attempt(base@, j),
                );
            lemma_attempt_bare(base@, i);
        }
        let content = join_slices(slices);
        self.path = target;
        Ok(content)
    }

    /// The SQL statement and arguments that store the file record of an upload.
    pub fn insert_file_query(&self) -> (r: Result<Query, UploadError>)
        ensures
            r is Ok,
            r->Ok_0.sql@ == insert_file_sql(),
            r->Ok_0.args@.map_values(|a: String| a@) == file_record_args(self@),
    {
        let sql = String::from_str(
            "insert into FILE (filename, file_type, path, size, owner_id, parent_id) values (?1, ?2, ?3, ?4, ?5, ?6)",
        );
        let mut args: Vec<String> = Vec::new();
        args.push(self.filename.clone());
        args.push(self.file_type.name());
        args.push(self.path.clone());
        args.push(to_decimal(self.size));
        args.push(to_signed_decimal(self.owner_id));
        args.push(to_signed_decimal(self.parent_id));
        assert(args@.map_values(|a: String| a@) =~= file_record_args(self@));
        Ok(Query { sql, args })
    }
}

/// One slice attempt: requester, index, fingerprint computed over the bytes,
/// and the declared fingerprint.
pub type SliceAttempt = (i64, u64, Seq<char>, Seq<char>);

/// A task after one slice attempt: an accepted slice is counted, any other
/// leaves the task as it was.
pub open spec fn after_attempt(task: TaskView, a: SliceAttempt) -> TaskView {
    if slice_accepted(task, a.0, a.1, a.2, a.3) && task.current_index < u64::MAX {
        TaskView { current_index: (task.current_index + 1) as u64, ..task }
    } else {
        task
    }
}

/// A task after a sequence of slice attempts, in order.
pub open spec fn after_attempts(task: TaskView, attempts: Seq<SliceAttempt>) -> TaskView
    decreases attempts.len(),
{
    if attempts.len() == 0 {
        task
    } else {
        after_attempt(after_attempts(task, attempts.drop_last()), attempts.last())
    }
}

/// After N slices sent in order by the owner, each with a matching
/// fingerprint, the task's next index has moved on by exactly N and nothing
/// else about the task has changed.
pub proof fn lemma_sequential_slices(task: TaskView, attempts: Seq<SliceAttempt>)
    requires
        task.current_index + attempts.len() <= u64::MAX,
        forall|i: int|
            0 <= i < attempts.len() ==> {
                &&& (#[trigger] attempts[i]).0 == task.owner_id
                &&& attempts[i].1 == task.current_index + i
                &&& attempts[i].2 == attempts[i].3
            },
    ensures
        after_attempts(task, attempts) == (TaskView {
            current_index: (task.current_index + attempts.len()) as u64,
            ..task
        }),
    decreases attempts.len(),
{
    if attempts.len() > 0 {
        let prefix = attempts.drop_last();
        assert forall|i: int| 0 <= i < prefix.len() implies {
            &&& (#[trigger] prefix[i]).0 == task.owner_id
            &&& prefix[i].1 == task.current_index + i
            &&& prefix[i].2 == prefix[i].3
        } by {
            assert(prefix[i] == attempts[i]);
        }
        lemma_sequential_slices(task, prefix);
        let a = attempts[attempts.len() - 1];
        assert(a == attempts.last());
    }
}

/// A slice whose index is not the task's next index is rejected, whoever
/// sends it and whatever its fingerprint, and the task is left unchanged.
pub proof fn lemma_out_of_order_rejected(task: TaskView, a: SliceAttempt)
    requires
        a.1 != task.current_index,
    ensures
        !slice_accepted(task, a.0, a.1, a.2, a.3),
        after_attempt(task, a) == task,
{
}

/// The byte stream cut at the positions `cuts`: the slice between each two
/// neighbouring cuts.
pub open spec fn cut_at(original: Seq<u8>, cuts: Seq<int>) -> Seq<Seq<u8>> {
    Seq::new((cuts.len() - 1) as nat, |i: int| original.subrange(cuts[i], cuts[i + 1]))
}

/// Joining the slices of a byte stream, in order, gives back the stream,
/// byte for byte and of the same length.
pub proof fn lemma_combine_reproduces(original: Seq<u8>, cuts: Seq<int>)
    requires
        cuts.len() >= 1,
        cuts[0] == 0,
        cuts.last() == original.len(),
        forall|i: int| 0 <= i < cuts.len() - 1 ==> cuts[i] <= #[trigger] cuts[i + 1],
    ensures
        concat_slices(cut_at(original, cuts)) == original,
        concat_slices(cut_at(original, cuts)).len() == original.len(),
{
    lemma_concat_prefix(original, cuts);
    assert(original.subrange(0, original.len() as int) =~= original);
}

proof fn lemma_concat_prefix(original: Seq<u8>, cuts: Seq<int>)
    requires
        cuts.len() >= 1,
        cuts[0] == 0,
        cuts.last() <= original.len(),
        forall|i: int| 0 <= i < cuts.len() - 1 ==> cuts[i] <= #[trigger] cuts[i + 1],
    ensures
        concat_slices(cut_at(original, cuts)) == original.subrange(0, cuts.last()),
    decreases cuts.len(),
{
    if cuts.len() == 1 {
        assert(cut_at(original, cuts) =~= Seq::<Seq<u8>>::empty());
        assert(original.subrange(0, 0) =~= Seq::<u8>::empty());
    } else {
        let shorter = cuts.drop_last();
        let n = cuts.len();
        let j = n - 2;
        assert(cuts[j] <= cuts[j + 1]);
        lemma_cuts_bounded(cuts, n - 2);
        lemma_concat_prefix(original, shorter);
        assert(cut_at(original, cuts).drop_last() =~= cut_at(original, shorter));
        assert(original.subrange(0, cuts.last()) =~= original.subrange(0, cuts[n - 2])
            + original.subrange(cuts[n - 2], cuts[n - 1]));
    }
}

proof fn lemma_cuts_bounded(cuts: Seq<int>, k: int)
    requires
        0 <= k < cuts.len(),
        cuts[0] == 0,
        forall|i: int| 0 <= i < cuts.len() - 1 ==> cuts[i] <= #[trigger] cuts[i + 1],
    ensures
        0 <= cuts[k],
    decreases k,
{
    if k > 0 {
        lemma_cuts_bounded(cuts, k - 1);
        let j = k - 1;
        assert(cuts[j] <= cuts[j + 1]);
    }
}

/// The first `n` slices held in a scratch store that maps slice indices to
/// their bytes, in index order.
pub open spec fn stored_slices(store: Map<nat, Seq<u8>>, n: nat) -> Seq<Seq<u8>> {
    Seq::new(n, |i: int| store[i as nat])
}

/// Writing slice `k` again with the bytes it already holds, before the
/// counter moves on, leaves the store, and so the combined output, as it was.
pub proof fn lemma_rewrite_idempotent(store: Map<nat, Seq<u8>>, k: nat, bytes: Seq<u8>, n: nat)
    requires
        store.contains_key(k),
        store[k] == bytes,
    ensures
        store.insert(k, bytes) == store,
        concat_slices(stored_slices(store.insert(k, bytes), n)) == concat_slices(stored_slices(store, n)),
{
    assert(store.insert(k, bytes) =~= store);
}

} // verus!
