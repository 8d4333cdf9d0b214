//! Identifiers, hashes and files of stored evidence.
use vstd::prelude::*;

use crate::json::{Json, JsonView};
use crate::text::{
    chars_of, is_ascii_alnum, law_replacing_is_done_one_by_one, opt_text, replace_char, replaced,
    same_text,
};

verus! {

/// A page as it was fetched and stored. Times are in nanoseconds since the Unix epoch.
pub struct FetchRecord {
    pub fetch_id: String,
    pub requested_url: String,
    pub final_url: String,
    pub mode: String,
    pub requested_at: i64,
    pub completed_at: i64,
    pub status: String,
    pub bytes: u64,
    pub content_hash: String,
    pub content_markdown: String,
    pub source_provider: String,
    pub policy_decision: String,
    pub truncated: bool,
}

/// A fetch record as a mathematical value.
pub struct FetchView {
    pub fetch_id: Seq<char>,
    pub requested_url: Seq<char>,
    pub final_url: Seq<char>,
    pub mode: Seq<char>,
    pub requested_at: i64,
    pub completed_at: i64,
    pub status: Seq<char>,
    pub bytes: u64,
    pub content_hash: Seq<char>,
    pub content_markdown: Seq<char>,
    pub source_provider: Seq<char>,
    pub policy_decision: Seq<char>,
    pub truncated: bool,
}

impl View for FetchRecord {
    type V = FetchView;

    open spec fn view(&self) -> FetchView {
        FetchView {
            fetch_id: self.fetch_id@,
            requested_url: self.requested_url@,
            final_url: self.final_url@,
            mode: self.mode@,
            requested_at: self.requested_at,
            completed_at: self.completed_at,
            status: self.status@,
            bytes: self.bytes,
            content_hash: self.content_hash@,
            content_markdown: self.content_markdown@,
            source_provider: self.source_provider@,
            policy_decision: self.policy_decision@,
            truncated: self.truncated,
        }
    }
}

/// What was asked and how it ended. The time is in nanoseconds since the Unix epoch.
pub struct AuditRecord {
    pub entry_id: String,
    pub fetch_id: Option<String>,
    pub tool: String,
    pub args_redacted: Json,
    pub outcome: String,
    pub error: Option<String>,
    pub recorded_at: i64,
}

/// An audit record as a mathematical value.
#[verifier::ext_equal]
pub struct AuditView {
    pub entry_id: Seq<char>,
    pub fetch_id: Option<Seq<char>>,
    pub tool: Seq<char>,
    pub args_redacted: JsonView,
    pub outcome: Seq<char>,
    pub error: Option<Seq<char>>,
    pub recorded_at: i64,
}

impl View for AuditRecord {
    type V = AuditView;

    open spec fn view(&self) -> AuditView {
        AuditView {
            entry_id: self.entry_id@,
            fetch_id: opt_text(self.fetch_id),
            tool: self.tool@,
            args_redacted: self.args_redacted@,
            outcome: self.outcome@,
            error: opt_text(self.error),
            recorded_at: self.recorded_at,
        }
    }
}

/// The stored answer to a research assignment.
#[derive(Clone, Debug)]
pub struct ResearchBundleRecord {
    pub assignment_id: String,
    pub request_hash: String,
    pub response_json: String,
}

/// A bundle record as a mathematical value.
pub struct BundleView {
    pub assignment_id: Seq<char>,
    pub request_hash: Seq<char>,
    pub response_json: Seq<char>,
}

impl View for ResearchBundleRecord {
    type V = BundleView;

    open spec fn view(&self) -> BundleView {
        BundleView {
            assignment_id: self.assignment_id@,
            request_hash: self.request_hash@,
            response_json: self.response_json@,
        }
    }
}

/// Where evidence is kept.
pub struct Store {
    backend: StoreBackend,
}

/// A directory of files, or nothing.
pub enum StoreBackend {
    Disk { root: String },
    NoOp,
}

/// A file of the store: a directory below its root, and a name in it.
pub struct StoreFile {
    pub root: String,
    pub dir: String,
    pub name: String,
}

/// A file of the store as a mathematical value.
pub struct FileView {
    pub root: Seq<char>,
    pub dir: Seq<char>,
    pub name: Seq<char>,
}

impl View for StoreFile {
    type V = FileView;

    open spec fn view(&self) -> FileView {
        FileView { root: self.root@, dir: self.dir@, name: self.name@ }
    }
}

/// Why the store does not answer.
#[derive(Debug, Clone, Copy, PartialEq, Eq, Structural)]
pub enum StoreError {
    InvalidFetchId,
    BundleKeyCollision,
}

impl StoreError {
    /// The message of the error.
    pub fn message(&self) -> (res: String)
        ensures
            res@ == match *self {
                StoreError::InvalidFetchId => "invalid fetch id"@,
                StoreError::BundleKeyCollision => "research bundle key collision"@,
            },
    {
        match self {
            StoreError::InvalidFetchId => "invalid fetch id".to_owned(),
            StoreError::BundleKeyCollision => "research bundle key collision".to_owned(),
        }
    }
}

// ---------------------------------------------------------------------------
// Outside calls
// ---------------------------------------------------------------------------
/// A lowercase hexadecimal digit.
pub open spec fn is_hex_digit(c: char) -> bool {
    ('0' <= c && c <= '9') || ('a' <= c && c <= 'f')
}

/// The hyphenated form of a UUID in lowercase.
pub open spec fn is_uuid_text(s: Seq<char>) -> bool {
    &&& s.len() == 36
    &&& forall|i: int|
        0 <= i < 36 ==> if i == 8 || i == 13 || i == 18 || i == 23 {
            #[trigger] s[i] == '-'
        } else {
            is_hex_digit(s[i])
        }
}

/// `uuid::Uuid::new_v4`, written out by its `Display`: a random identifier in the
/// hyphenated lowercase form. Which one it is depends on chance; only its form is stated.
#[verifier::external_body]
pub(crate) fn new_uuid_text() -> (res: String)
    ensures
        is_uuid_text(res@),
{
    uuid::Uuid::new_v4().to_string()
}

/// The SHA-256 digest of some bytes in lowercase hexadecimal digits.
pub uninterp spec fn sha256_hex(body: Seq<u8>) -> Seq<char>;

/// `sha2::Sha256` over the bytes, written out by `LowerHex`: two lowercase hexadecimal
/// digits for each of the 32 bytes of the digest, a function of the bytes alone.
#[verifier::external_body]
pub(crate) fn sha256_text(body: &[u8]) -> (res: String)
    ensures
        res@ == sha256_hex(body@),
        res@.len() == 64,
        forall|i: int| 0 <= i < res@.len() ==> is_hex_digit(#[trigger] res@[i]),
{
    format!("{:x}", <sha2::Sha256 as sha2::Digest>::digest(body))
}

/// A time in RFC 3339 form.
pub uninterp spec fn rfc3339(at: i64) -> Seq<char>;

/// `chrono::DateTime::to_rfc3339` on the UTC time of `DateTime::from_timestamp_nanos`: a
/// function of the number alone.
#[verifier::external_body]
pub(crate) fn rfc3339_text(at: i64) -> (res: String)
    ensures
        res@ == rfc3339(at),
{
    chrono::DateTime::from_timestamp_nanos(at).to_rfc3339()
}

// ---------------------------------------------------------------------------
// Models
// ---------------------------------------------------------------------------
/// The content hash of some bytes.
pub open spec fn hash_of(body: Seq<u8>) -> Seq<char> {
    "sha256:"@ + sha256_hex(body)
}

/// A character that may stand in an identifier.
pub open spec fn is_id_char(c: char) -> bool {
    is_ascii_alnum(c) || c == '-' || c == '_'
}

/// An identifier that may name a file: up to 128 letters, digits, hyphens and underscores.
pub open spec fn is_valid_id(id: Seq<char>) -> bool {
    1 <= id.len() <= 128 && forall|i: int| 0 <= i < id.len() ==> is_id_char(#[trigger] id[i])
}

/// The name of the file of an identifier.
pub open spec fn json_name(id: Seq<char>) -> Seq<char> {
    id + ".json"@
}

/// The name of the file of an assignment's bundle.
pub open spec fn bundle_name(assignment_id: Seq<char>) -> Seq<char> {
    replaced(hash_of(vstd::utf8::encode_utf8(assignment_id)), ':', "-"@) + ".json"@
}

/// Whether a name may stand in an identifier's file.
pub fn valid_id(id: &str) -> (res: bool)
    ensures
        res == is_valid_id(id@),
{
    let v = chars_of(id);
    if v.len() < 1 || v.len() > 128 {
        return false;
    }
    let mut i: usize = 0;
    while i < v.len()
        invariant
            v@ == id@,
            i <= v@.len(),
            forall|k: int| 0 <= k < i ==> is_id_char(#[trigger] v@[k]),
        decreases v@.len() - i,
    {
        let c = v[i];
        let fine = ('a' <= c && c <= 'z') || ('A' <= c && c <= 'Z') || ('0' <= c && c <= '9') || c
            == '-' || c == '_';
        if !fine {
            assert(!is_id_char(id@[i as int]));
            return false;
        }
        i = i + 1;
    }
    true
}

/// The name of the file of an assignment's bundle.
pub fn bundle_key(assignment_id: &str) -> (res: String)
    ensures
        res@ == bundle_name(assignment_id@),
        is_plain_name(res@),
{
    let hash = Store::content_hash(assignment_id.as_bytes());
    let mut out = replace_char(&hash, ':', "-");
    proof {
        lemma_bundle_hash(hash@);
        reveal_strlit(".json");
    }
    out.push_str(".json");
    out
}

/// A name that can be no path: lowercase letters, digits, hyphens and full stops, with a
/// letter first.
pub open spec fn is_plain_name(s: Seq<char>) -> bool {
    &&& s.len() > 0
    &&& 'a' <= s[0] && s[0] <= 'z'
    &&& forall|i: int|
        0 <= i < s.len() ==> {
            ||| ('a' <= #[trigger] s[i] && s[i] <= 'z')
            ||| ('0' <= s[i] && s[i] <= '9')
            ||| s[i] == '-'
            ||| s[i] == '.'
        }
}

/// Replacing one character by another works position by position.
proof fn lemma_replaced_one(s: Seq<char>, c: char, d: char)
    ensures
        replaced(s, c, seq![d]) == s.map_values(
            |x: char|
                if x == c {
                    d
                } else {
                    x
                },
        ),
    decreases s.len(),
{
    let f = |x: char|
        if x == c {
            d
        } else {
            x
        };
    if s.len() > 0 {
        lemma_replaced_one(s.drop_last(), c, d);
        assert(replaced(s, c, seq![d]) =~= s.drop_last().map_values(f).push(f(s.last())));
        assert(s.map_values(f) =~= s.drop_last().map_values(f).push(f(s.last())));
    } else {
        assert(s.map_values(f) =~= Seq::empty());
    }
}

proof fn lemma_bundle_hash(hash: Seq<char>)
    requires
        hash.len() == 71,
        has_hash_form(hash),
    ensures
        is_plain_name(replaced(hash, ':', "-"@)),
{
    reveal_strlit("sha256:");
    reveal_strlit("-");
    assert("-"@ =~= seq!['-']);
    lemma_replaced_one(hash, ':', '-');
    let out = replaced(hash, ':', "-"@);
    assert forall|i: int| 0 <= i < out.len() implies {
        ||| ('a' <= #[trigger] out[i] && out[i] <= 'z')
        ||| ('0' <= out[i] && out[i] <= '9')
        ||| out[i] == '-'
        ||| out[i] == '.'
    } by {
        if i < 7 {
            assert(hash[i] == "sha256:"@[i]);
        } else {
            assert(is_hex_digit(hash[i]));
        }
    }
    assert(hash[0] == "sha256:"@[0]);
}

/// `sha256:` and 64 lowercase hexadecimal digits.
pub open spec fn has_hash_form(s: Seq<char>) -> bool {
    &&& s.len() == 71
    &&& s.take(7) == "sha256:"@
    &&& forall|i: int| 7 <= i < 71 ==> is_hex_digit(#[trigger] s[i])
}

/// The root of a store on disk.
pub open spec fn disk_root(backend: StoreBackend) -> Option<Seq<char>> {
    match backend {
        StoreBackend::Disk { root } => Some(root@),
        StoreBackend::NoOp => None,
    }
}

/// A file below the root of the store, where it has one.
pub open spec fn file_at(root: Option<Seq<char>>, dir: Seq<char>, name: Seq<char>) -> Option<
    FileView,
> {
    match root {
        Some(root) => Some(FileView { root, dir, name }),
        None => None,
    }
}

/// The file of a fetch, where the store is on disk.
pub open spec fn fetch_file(root: Option<Seq<char>>, fetch_id: Seq<char>) -> Option<FileView> {
    file_at(root, "fetches"@, json_name(fetch_id))
}

/// The file of an audit entry, where the store is on disk.
pub open spec fn audit_file(root: Option<Seq<char>>, entry_id: Seq<char>) -> Option<FileView> {
    file_at(root, "audits"@, json_name(entry_id))
}

/// The file of an assignment's bundle, where the store is on disk.
pub open spec fn bundle_file(root: Option<Seq<char>>, assignment_id: Seq<char>) -> Option<FileView> {
    file_at(root, "bundles"@, bundle_name(assignment_id))
}

/// The file that a fetch is read from; on disk an identifier that may name no file is refused.
pub open spec fn fetch_source(root: Option<Seq<char>>, fetch_id: Seq<char>) -> Result<
    Option<FileView>,
    StoreError,
> {
    if root is Some && !is_valid_id(fetch_id) {
        Err(StoreError::InvalidFetchId)
    } else {
        Ok(fetch_file(root, fetch_id))
    }
}

/// A bundle that was read for an assignment, or why it is refused.
pub open spec fn own_bundle(record: BundleView, assignment_id: Seq<char>) -> Result<
    BundleView,
    StoreError,
> {
    if record.assignment_id == assignment_id {
        Ok(record)
    } else {
        Err(StoreError::BundleKeyCollision)
    }
}

/// The view of an optional file.
pub open spec fn opt_file(o: Option<StoreFile>) -> Option<FileView> {
    match o {
        Some(f) => Some(f@),
        None => None,
    }
}

impl Store {
    /// The root directory, where the store is on disk.
    pub closed spec fn root(&self) -> Option<Seq<char>> {
        disk_root(self.backend)
    }

    /// A store on disk.
    pub fn disk(root: String) -> (res: Self)
        ensures
            res.root() == Some(root@),
    {
        Store { backend: StoreBackend::Disk { root } }
    }

    /// A store that keeps nothing.
    pub fn noop() -> (res: Self)
        ensures
            res.root() is None,
    {
        Store { backend: StoreBackend::NoOp }
    }

    fn file(&self, dir: &str, name: String) -> (res: Option<StoreFile>)
        ensures
            opt_file(res) == file_at(self.root(), dir@, name@),
    {
        match &self.backend {
            StoreBackend::Disk { root } => Some(
                StoreFile { root: root.clone(), dir: dir.to_owned(), name },
            ),
            StoreBackend::NoOp => None,
        }
    }

    /// The directories that the store keeps its files in.
    pub fn directories() -> (res: Vec<&'static str>)
        ensures
            res@.len() == 3,
            res@[0]@ == "fetches"@,
            res@[1]@ == "audits"@,
            res@[2]@ == "bundles"@,
    {
        vec!["fetches", "audits", "bundles"]
    }

    /// The file to write a fetch record to; none where the store keeps nothing.
    pub fn write_fetch(&self, rec: &FetchRecord) -> (res: Option<StoreFile>)
        ensures
            opt_file(res) == fetch_file(self.root(), rec.fetch_id@),
    {
        let mut name = rec.fetch_id.clone();
        name.push_str(".json");
        self.file("fetches", name)
    }

    /// The file to read a fetch record from; none where the store keeps nothing.
    pub fn read_fetch(&self, fetch_id: &str) -> (res: Result<Option<StoreFile>, StoreError>)
        ensures
            fetch_source(self.root(), fetch_id@) == match res {
                Ok(file) => Ok::<Option<FileView>, StoreError>(opt_file(file)),
                Err(e) => Err::<Option<FileView>, StoreError>(e),
            },
    {
        if let StoreBackend::NoOp = &self.backend {
            return Ok(None);
        }
        if !valid_id(fetch_id) {
            return Err(StoreError::InvalidFetchId);
        }
        let mut name = fetch_id.to_owned();
        name.push_str(".json");
        Ok(self.file("fetches", name))
    }

    /// The file to write an audit record to; none where the store keeps nothing.
    pub fn write_audit(&self, rec: &AuditRecord) -> (res: Option<StoreFile>)
        ensures
            opt_file(res) == audit_file(self.root(), rec.entry_id@),
    {
        let mut name = rec.entry_id.clone();
        name.push_str(".json");
        self.file("audits", name)
    }

    /// The file to write a bundle to; none where the store keeps nothing.
    pub fn write_research_bundle(&self, rec: &ResearchBundleRecord) -> (res: Option<StoreFile>)
        ensures
            opt_file(res) == bundle_file(self.root(), rec.assignment_id@),
    {
        let name = bundle_key(&rec.assignment_id);
        self.file("bundles", name)
    }

    /// The file to read a bundle from; none where the store keeps nothing.
    pub fn read_research_bundle(&self, assignment_id: &str) -> (res: Option<StoreFile>)
        ensures
            opt_file(res) == bundle_file(self.root(), assignment_id@),
    {
        let name = bundle_key(assignment_id);
        self.file("bundles", name)
    }

    /// A bundle that was read is the assignment's own, or it is refused.
    pub fn accept_research_bundle(record: ResearchBundleRecord, assignment_id: &str) -> (res:
        Result<ResearchBundleRecord, StoreError>)
        ensures
            own_bundle(record@, assignment_id@) == match res {
                Ok(r) => Ok::<BundleView, StoreError>(r@),
                Err(e) => Err::<BundleView, StoreError>(e),
            },
    {
        if same_text(&record.assignment_id, assignment_id) {
            Ok(record)
        } else {
            Err(StoreError::BundleKeyCollision)
        }
    }

    /// A fresh identifier of a fetch.
    pub fn new_fetch_id() -> (res: String)
        ensures
            is_uuid_text(res@),
            is_valid_id(res@),
    {
        new_uuid_text()
    }

    /// A fresh identifier of an audit entry.
    pub fn new_audit_id() -> (res: String)
        ensures
            is_uuid_text(res@),
            is_valid_id(res@),
    {
        new_uuid_text()
    }

    /// The content hash of some bytes.
    pub fn content_hash(body: &[u8]) -> (res: String)
        ensures
            res@ == hash_of(body@),
            has_hash_form(res@),
    {
        let hex = sha256_text(body);
        let mut out = "sha256:".to_owned();
        out.push_str(&hex);
        proof {
            reveal_strlit("sha256:");
            assert(out@.take(7) =~= "sha256:"@);
        }
        out
    }
}

// ---------------------------------------------------------------------------
// Laws
// ---------------------------------------------------------------------------
/// What a file of some contents holds.
pub open spec fn held<V>(files: Map<FileView, V>, file: Option<FileView>) -> Option<V> {
    match file {
        Some(f) => if files.dom().contains(f) {
            Some(files[f])
        } else {
            None
        },
        None => None,
    }
}

/// Reading a fetch gives back what was written under its identifier; what is written under
/// another one changes nothing.
pub proof fn law_reads_give_back_writes<V>(
    files: Map<FileView, V>,
    root: Seq<char>,
    written: Seq<char>,
    read: Seq<char>,
    record: V,
)
    requires
        is_valid_id(read),
    ensures
        ({
            let after = files.insert(fetch_file(Some(root), written)->0, record);
            let source = fetch_source(Some(root), read);
            &&& source is Ok && source->Ok_0 is Some
            &&& held(after, source->Ok_0) == if written == read {
                Some(record)
            } else {
                held(files, source->Ok_0)
            }
        }),
{
    if written != read {
        law_files_of_different_ids_differ(written, read);
    }
}

/// What a bundle's file holds is the assignment's own or is refused. What was written for an
/// assignment is read for it; where it went to another file than the one that is asked for, it
/// leaves what that one holds unchanged, and where two assignments share a file, it is refused.
pub proof fn law_bundles_are_the_assignments_own(
    files: Map<FileView, BundleView>,
    root: Seq<char>,
    record: BundleView,
    asked: Seq<char>,
)
    ensures
        ({
            let after = files.insert(bundle_file(Some(root), record.assignment_id)->0, record);
            let found = held(after, bundle_file(Some(root), asked));
            &&& asked == record.assignment_id ==> found == Some(record) && own_bundle(
                record,
                asked,
            ) == Ok::<BundleView, StoreError>(record)
            &&& found is Some && own_bundle(found->0, asked) is Ok
                ==> found->0.assignment_id == asked
            &&& bundle_file(Some(root), asked) != bundle_file(Some(root), record.assignment_id)
                ==> found == held(files, bundle_file(Some(root), asked))
            &&& bundle_file(Some(root), asked) == bundle_file(Some(root), record.assignment_id)
                && asked != record.assignment_id ==> found == Some(record) && own_bundle(
                record,
                asked,
            ) == Err::<BundleView, StoreError>(StoreError::BundleKeyCollision)
        }),
{
}

/// A fetch, an audit entry and a bundle never share a file.
pub proof fn law_kinds_of_files_are_apart(root: Seq<char>, a: Seq<char>, b: Seq<char>, c: Seq<char>)
    ensures
        fetch_file(Some(root), a) != audit_file(Some(root), b),
        fetch_file(Some(root), a) != bundle_file(Some(root), c),
        audit_file(Some(root), b) != bundle_file(Some(root), c),
{
    reveal_strlit("fetches");
    reveal_strlit("audits");
    reveal_strlit("bundles");
    assert("fetches"@[0] != "bundles"@[0]);
    assert("audits"@[0] != "bundles"@[0]);
    assert("fetches"@[0] != "audits"@[0]);
}

/// Two different identifiers name two different files.
pub proof fn law_files_of_different_ids_differ(a: Seq<char>, b: Seq<char>)
    requires
        a != b,
    ensures
        json_name(a) != json_name(b),
{
    if json_name(a) == json_name(b) {
        assert(a =~= json_name(a).take(json_name(a).len() - ".json"@.len()));
        assert(b =~= json_name(b).take(json_name(b).len() - ".json"@.len()));
    }
}

/// An identifier that the store reads holds no slash, no backslash and no full stop, so it
/// names no path.
pub proof fn law_valid_ids_are_no_paths(id: Seq<char>, i: int)
    requires
        is_valid_id(id),
        0 <= i < id.len(),
    ensures
        id[i] != '/' && id[i] != '\\' && id[i] != '.',
{
    assert(is_id_char(id[i]));
}

/// A fresh identifier is one that the store reads.
pub proof fn law_fresh_ids_are_valid(id: Seq<char>)
    requires
        is_uuid_text(id),
    ensures
        is_valid_id(id),
{
    assert forall|i: int| 0 <= i < id.len() implies is_id_char(#[trigger] id[i]) by {}
}

/// Records lie below the root of the store, each kind in a directory of its own, under a name
/// that is made of the record's identifier; a store without a root has no files.
pub proof fn law_records_lie_below_the_root(root: Seq<char>, id: Seq<char>)
    ensures
        fetch_file(Some(root), id) == Some(
            FileView { root, dir: "fetches"@, name: id + ".json"@ },
        ),
        audit_file(Some(root), id) == Some(FileView { root, dir: "audits"@, name: id + ".json"@ }),
        bundle_file(Some(root), id) is Some && bundle_file(Some(root), id)->0.root == root
            && bundle_file(Some(root), id)->0.dir == "bundles"@,
        fetch_file(None, id) is None && audit_file(None, id) is None && bundle_file(None, id)
            is None,
        fetch_source(Some(root), id) == Err::<Option<FileView>, StoreError>(
            StoreError::InvalidFetchId,
        ) <==> !is_valid_id(id),
        is_valid_id(id) ==> fetch_source(Some(root), id) == Ok::<Option<FileView>, StoreError>(
            fetch_file(Some(root), id),
        ),
        fetch_source(None, id) == Ok::<Option<FileView>, StoreError>(None),
{
}

/// An identifier is valid where it is not empty, not longer than 128 characters, and made of
/// letters, digits, hyphens and underscores alone.
pub proof fn law_valid_ids_are_short_and_plain(id: Seq<char>, c: char)
    ensures
        is_valid_id(id.push(c)) <==> id.len() < 128 && (id.len() == 0 || is_valid_id(id)) && ((97
            <= c as u32 <= 122) || (65 <= c as u32 <= 90) || (48 <= c as u32 <= 57) || c == '-'
            || c == '_'),
        !is_valid_id(Seq::<char>::empty()),
{
    let longer = id.push(c);
    assert(longer[id.len() as int] == c);
    assert forall|i: int| 0 <= i < id.len() implies #[trigger] longer[i] == id[i] by {}
    if is_valid_id(longer) {
        assert forall|i: int| 0 <= i < id.len() implies is_id_char(#[trigger] id[i]) by {
            assert(longer[i] == id[i]);
        }
    }
}

/// A content hash names its algorithm and gives the digest of the bytes.
pub proof fn law_hashes_name_their_algorithm(body: Seq<u8>)
    ensures
        hash_of(body).len() == 7 + sha256_hex(body).len(),
        hash_of(body).take(7) == "sha256:"@,
        hash_of(body).skip(7) == sha256_hex(body),
{
    reveal_strlit("sha256:");
    assert(hash_of(body).take(7) =~= "sha256:"@);
    assert(hash_of(body).skip(7) =~= sha256_hex(body));
}

proof fn lemma_nothing_replaced(s: Seq<char>, c: char, t: Seq<char>)
    requires
        !s.contains(c),
    ensures
        replaced(s, c, t) == s,
    decreases s.len(),
{
    if s.len() > 0 {
        let front = s.drop_last();
        assert forall|i: int| 0 <= i < front.len() implies #[trigger] front[i] != c by {
            assert(s[i] == front[i]);
        }
        assert(s[s.len() - 1] == s.last());
        lemma_nothing_replaced(front, c, t);
        assert(front.push(s.last()) =~= s);
    } else {
        assert(s =~= Seq::<char>::empty());
    }
}

/// The file of a bundle is named by the hash of the assignment's identifier, with a hyphen where
/// the hash has a colon.
pub proof fn law_bundles_are_named_by_their_hash(assignment_id: Seq<char>)
    ensures
        ({
            let digest = sha256_hex(vstd::utf8::encode_utf8(assignment_id));
            !digest.contains(':') ==> bundle_name(assignment_id) == "sha256-"@ + digest + ".json"@
        }),
{
    let digest = sha256_hex(vstd::utf8::encode_utf8(assignment_id));
    if !digest.contains(':') {
        reveal_strlit("sha256:");
        reveal_strlit("sha256-");
        reveal_strlit("-");
        let name = seq!['s', 'h', 'a', '2', '5', '6'];
        assert("sha256:"@ =~= name + seq![':']);
        assert("sha256-"@ =~= name + "-"@);
        law_replacing_is_done_one_by_one("sha256:"@, digest, ':', ':', "-"@);
        law_replacing_is_done_one_by_one(name, seq![':'], ':', ':', "-"@);
        lemma_nothing_replaced(name, ':', "-"@);
        lemma_nothing_replaced(digest, ':', "-"@);
        assert(replaced("sha256:"@, ':', "-"@) == "sha256-"@);
    }
}

/// A hash has its form where its digest has 64 hexadecimal digits in small letters.
pub proof fn law_hashes_have_a_form(body: Seq<u8>)
    ensures
        has_hash_form(hash_of(body)) <==> sha256_hex(body).len() == 64 && forall|i: int|
            0 <= i < 64 ==> {
                let c = #[trigger] sha256_hex(body)[i];
                ('0' <= c && c <= '9') || ('a' <= c && c <= 'f')
            },
{
    reveal_strlit("sha256:");
    let s = hash_of(body);
    let hex = sha256_hex(body);
    assert(s.take(7) =~= "sha256:"@);
    assert forall|i: int| 0 <= i < hex.len() implies #[trigger] hex[i] == s[i + 7] by {}
    if has_hash_form(s) {
        assert forall|i: int| 0 <= i < 64 implies {
            let c = #[trigger] hex[i];
            ('0' <= c && c <= '9') || ('a' <= c && c <= 'f')
        } by {
            assert(is_hex_digit(s[i + 7]));
        }
    }
    if hex.len() == 64 && forall|i: int|
        0 <= i < 64 ==> {
            let c = #[trigger] hex[i];
            ('0' <= c && c <= '9') || ('a' <= c && c <= 'f')
        } {
        assert forall|i: int| 7 <= i < 71 implies is_hex_digit(#[trigger] s[i]) by {
            assert(s[i] == hex[i - 7]);
        }
    }
}

} // verus!
