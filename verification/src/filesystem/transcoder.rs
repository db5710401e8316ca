//! A filesystem over another one that shows some files under other names or
//! in another form: textures as `.dds`, string tables and script data as
//! text, and so on, by a fixed table of rules.
use vstd::prelude::*;
use std::sync::Arc;
use std::time::SystemTime;

use super::{
    read_outcome, read_slice_at, FsDirEntry, FsError, FsFileInfo, FsReadHandle, FsStreamEntry,
    ReadOnlyFs,
};
use crate::hashindex::HashIndex;
use crate::formats::string_table::{bytes_to_json, string_table_readable, table_json, table_readable};
use crate::formats::banksinfo::{bank_text_of, banksinfo_readable, banksinfo_text};
use crate::formats::scriptdata::binary::{binary_reads, from_binary, BinaryError};
use crate::formats::scriptdata::document::Document;
use crate::formats::scriptdata::generic_xml::{self, formats_numbers, number_texts};
use crate::formats::scriptdata::custom_xml;
use vstd::string::StrSliceExecFns;
use crate::text::{ends_with, has_suffix, same_text};

verus! {

/// What a rule turns a file's bytes into.
#[derive(Clone, Copy, Debug, PartialEq, Eq, Structural)]
pub enum Transcode {
    Strings,
    Banksinfo,
    ScriptdataCustom,
    ScriptdataGeneric,
}

/// A rule: files whose names end with `backing_extension` are shown with
/// `displayed_extension` in its place, and their main stream is converted by
/// `transformer` where there is one.
pub struct TranscodeRule {
    pub backing_extension: &'static str,
    pub displayed_extension: &'static str,
    pub hide_original: bool,
    pub transformer: Option<Transcode>,
}

/// A rule of the table, from its four parts.
pub open spec fn rule(
    backing_extension: &'static str,
    displayed_extension: &'static str,
    hide_original: bool,
    transformer: Option<Transcode>,
) -> TranscodeRule {
    TranscodeRule { backing_extension, displayed_extension, hide_original, transformer }
}

/// The rules, in the order in which they are tried.
pub open spec fn rule_table() -> Seq<TranscodeRule> {
    seq![
        rule(".movie", ".bink", true, None),
        rule(".texture", ".dds", true, None),
        rule(".stream", ".wem", true, None),
        rule(".strings", ".strings", true, Some(Transcode::Strings)),
        rule(".banksinfo", ".banksinfo", true, Some(Transcode::Banksinfo)),
        rule("mission.mission", "mission.mission", true, Some(Transcode::ScriptdataCustom)),
        rule("world.world", "world.world", true, Some(Transcode::ScriptdataGeneric)),
        rule(".achievement", ".achievement", true, Some(Transcode::ScriptdataCustom)),
        rule(".action_message", ".action_message", true, Some(Transcode::ScriptdataCustom)),
        rule(".credits", ".credits", true, Some(Transcode::ScriptdataCustom)),
        rule(".comment", ".comment", true, Some(Transcode::ScriptdataCustom)),
        rule(".continent", ".continent", true, Some(Transcode::ScriptdataCustom)),
        rule(".continents", ".continents", true, Some(Transcode::ScriptdataCustom)),
        rule(".cover_data", ".cover_data", true, Some(Transcode::ScriptdataGeneric)),
        rule(".dialog", ".dialog", true, Some(Transcode::ScriptdataCustom)),
        rule(".environment", ".environment", true, Some(Transcode::ScriptdataCustom)),
        rule(".hint", ".hint", true, Some(Transcode::ScriptdataCustom)),
        rule(".menu", ".menu", true, Some(Transcode::ScriptdataCustom)),
        rule(".mission", ".mission", true, Some(Transcode::ScriptdataGeneric)),
        rule(".nav_data", ".nav_data", true, Some(Transcode::ScriptdataGeneric)),
        rule(".objective", ".objective", true, Some(Transcode::ScriptdataCustom)),
        rule(".sequence_manager", ".sequence_manager", true, Some(Transcode::ScriptdataGeneric)),
        rule(".timeline", ".timeline", true, Some(Transcode::ScriptdataCustom)),
        rule(".world", ".world", true, Some(Transcode::ScriptdataGeneric)),
        rule(".world_cameras", ".world_cameras", true, Some(Transcode::ScriptdataCustom)),
        rule(".world_sounds", ".world_sounds", true, Some(Transcode::ScriptdataGeneric)),
    ]
}

/// The table of rules.
pub fn transcode_rules() -> (r: Vec<TranscodeRule>)
    ensures
        r@ == rule_table(),
{
    vec![
        TranscodeRule { backing_extension: ".movie", displayed_extension: ".bink", hide_original: true, transformer: None },
        TranscodeRule { backing_extension: ".texture", displayed_extension: ".dds", hide_original: true, transformer: None },
        TranscodeRule { backing_extension: ".stream", displayed_extension: ".wem", hide_original: true, transformer: None },
        TranscodeRule { backing_extension: ".strings", displayed_extension: ".strings", hide_original: true, transformer: Some(Transcode::Strings) },
        TranscodeRule { backing_extension: ".banksinfo", displayed_extension: ".banksinfo", hide_original: true, transformer: Some(Transcode::Banksinfo) },
        TranscodeRule { backing_extension: "mission.mission", displayed_extension: "mission.mission", hide_original: true, transformer: Some(Transcode::ScriptdataCustom) },
        TranscodeRule { backing_extension: "world.world", displayed_extension: "world.world", hide_original: true, transformer: Some(Transcode::ScriptdataGeneric) },
        TranscodeRule { backing_extension: ".achievement", displayed_extension: ".achievement", hide_original: true, transformer: Some(Transcode::ScriptdataCustom) },
        TranscodeRule { backing_extension: ".action_message", displayed_extension: ".action_message", hide_original: true, transformer: Some(Transcode::ScriptdataCustom) },
        TranscodeRule { backing_extension: ".credits", displayed_extension: ".credits", hide_original: true, transformer: Some(Transcode::ScriptdataCustom) },
        TranscodeRule { backing_extension: ".comment", displayed_extension: ".comment", hide_original: true, transformer: Some(Transcode::ScriptdataCustom) },
        TranscodeRule { backing_extension: ".continent", displayed_extension: ".continent", hide_original: true, transformer: Some(Transcode::ScriptdataCustom) },
        TranscodeRule { backing_extension: ".continents", displayed_extension: ".continents", hide_original: true, transformer: Some(Transcode::ScriptdataCustom) },
        TranscodeRule { backing_extension: ".cover_data", displayed_extension: ".cover_data", hide_original: true, transformer: Some(Transcode::ScriptdataGeneric) },
        TranscodeRule { backing_extension: ".dialog", displayed_extension: ".dialog", hide_original: true, transformer: Some(Transcode::ScriptdataCustom) },
        TranscodeRule { backing_extension: ".environment", displayed_extension: ".environment", hide_original: true, transformer: Some(Transcode::ScriptdataCustom) },
        TranscodeRule { backing_extension: ".hint", displayed_extension: ".hint", hide_original: true, transformer: Some(Transcode::ScriptdataCustom) },
        TranscodeRule { backing_extension: ".menu", displayed_extension: ".menu", hide_original: true, transformer: Some(Transcode::ScriptdataCustom) },
        TranscodeRule { backing_extension: ".mission", displayed_extension: ".mission", hide_original: true, transformer: Some(Transcode::ScriptdataGeneric) },
        TranscodeRule { backing_extension: ".nav_data", displayed_extension: ".nav_data", hide_original: true, transformer: Some(Transcode::ScriptdataGeneric) },
        TranscodeRule { backing_extension: ".objective", displayed_extension: ".objective", hide_original: true, transformer: Some(Transcode::ScriptdataCustom) },
        TranscodeRule { backing_extension: ".sequence_manager", displayed_extension: ".sequence_manager", hide_original: true, transformer: Some(Transcode::ScriptdataGeneric) },
        TranscodeRule { backing_extension: ".timeline", displayed_extension: ".timeline", hide_original: true, transformer: Some(Transcode::ScriptdataCustom) },
        TranscodeRule { backing_extension: ".world", displayed_extension: ".world", hide_original: true, transformer: Some(Transcode::ScriptdataGeneric) },
        TranscodeRule { backing_extension: ".world_cameras", displayed_extension: ".world_cameras", hide_original: true, transformer: Some(Transcode::ScriptdataCustom) },
        TranscodeRule { backing_extension: ".world_sounds", displayed_extension: ".world_sounds", hide_original: true, transformer: Some(Transcode::ScriptdataGeneric) },
    ]
}

/// The extension of a rule that names in the given direction end with: the
/// displayed one, or the backing one.
pub open spec fn extension_of(r: TranscodeRule, displayed: bool) -> Seq<char> {
    if displayed {
        r.displayed_extension@
    } else {
        r.backing_extension@
    }
}

/// The first rule from `k` on whose extension, in the given direction, ends
/// `name`.
pub open spec fn first_rule_from(rules: Seq<TranscodeRule>, name: Seq<char>, displayed: bool, k: int) -> Option<int>
    decreases rules.len() - k,
{
    if k < 0 || k >= rules.len() {
        None
    } else if has_suffix(name, extension_of(rules[k], displayed)) {
        Some(k)
    } else {
        first_rule_from(rules, name, displayed, k + 1)
    }
}

/// The rule that applies to a name, in the given direction.
pub open spec fn rule_for(name: Seq<char>, displayed: bool) -> Option<int> {
    first_rule_from(rule_table(), name, displayed, 0)
}

/// `name` with the extension of rule `i` in one direction put in place of
/// the other.
pub open spec fn swap_extension(name: Seq<char>, i: int, from_displayed: bool) -> Seq<char> {
    let r = rule_table()[i];
    name.subrange(0, name.len() - extension_of(r, from_displayed).len()) + extension_of(
        r,
        !from_displayed,
    )
}

/// The path that the backing filesystem has for a displayed path.
pub open spec fn spec_backing_path(path: Seq<char>) -> Seq<char> {
    match rule_for(path, true) {
        None => path,
        Some(i) => swap_extension(path, i, true),
    }
}

/// The name under which a file of the backing filesystem is shown.
pub open spec fn spec_displayed_name(name: Seq<char>) -> Seq<char> {
    match rule_for(name, false) {
        None => name,
        Some(i) => swap_extension(name, i, false),
    }
}

/// The stream asked of the backing filesystem: `raw` is its main stream.
pub open spec fn spec_backing_stream(stream: Seq<char>) -> Seq<char> {
    if stream == "raw"@ {
        ""@
    } else {
        stream
    }
}

/// What the main stream of a displayed path is converted by, if anything.
pub open spec fn spec_conversion(path: Seq<char>, stream: Seq<char>) -> Option<Transcode> {
    if stream == ""@ {
        match rule_for(path, true) {
            None => None,
            Some(i) => rule_table()[i].transformer,
        }
    } else {
        None
    }
}

/// The first rule whose extension, in the given direction, ends `name`.
fn find_rule(rules: &Vec<TranscodeRule>, name: &str, displayed: bool) -> (r: Option<usize>)
    requires
        rules@ == rule_table(),
    ensures
        r matches Some(i) ==> rule_for(name@, displayed) == Some(i as int) && i < rules@.len(),
        r is None ==> rule_for(name@, displayed) is None,
{
    let mut k: usize = 0;
    while k < rules.len()
        invariant
            rules@ == rule_table(),
            0 <= k <= rules@.len(),
            rule_for(name@, displayed) == first_rule_from(rules@, name@, displayed, k as int),
        decreases rules.len() - k,
    {
        let ext = if displayed {
            rules[k].displayed_extension
        } else {
            rules[k].backing_extension
        };
        if ends_with(name, ext) {
            return Some(k);
        }
        k = k + 1;
    }
    None
}

/// `name` with the extension of a rule in one direction put in place of the
/// other.
fn swap_extension_of(rules: &Vec<TranscodeRule>, name: &str, i: usize, from_displayed: bool) -> (r: String)
    requires
        rules@ == rule_table(),
        rule_for(name@, from_displayed) == Some(i as int),
    ensures
        r@ == swap_extension(name@, i as int, from_displayed),
{
    proof {
        lemma_first_rule_matches(rule_table(), name@, from_displayed, 0);
    }
    let (cut, put) = if from_displayed {
        (rules[i].displayed_extension, rules[i].backing_extension)
    } else {
        (rules[i].backing_extension, rules[i].displayed_extension)
    };
    let n = name.unicode_len();
    let m = cut.unicode_len();
    let head = name.substring_char(0, n - m);
    let mut out = String::from_str(head);
    out.append(put);
    out
}

/// A rule that `first_rule_from` finds lies in range and matches.
proof fn lemma_first_rule_matches(rules: Seq<TranscodeRule>, name: Seq<char>, displayed: bool, k: int)
    ensures
        first_rule_from(rules, name, displayed, k) matches Some(i) ==> k <= i < rules.len()
            && has_suffix(name, extension_of(rules[i], displayed)),
    decreases rules.len() - k,
{
    if 0 <= k < rules.len() && !has_suffix(name, extension_of(rules[k], displayed)) {
        lemma_first_rule_matches(rules, name, displayed, k + 1);
    }
}

/// The path that the backing filesystem has for a displayed path, and the
/// rule that applied.
pub fn backing_path(path: &str) -> (r: (String, Option<usize>))
    ensures
        r.0@ == spec_backing_path(path@),
        r.1 matches Some(i) ==> rule_for(path@, true) == Some(i as int),
        r.1 is None ==> rule_for(path@, true) is None,
{
    let rules = transcode_rules();
    match find_rule(&rules, path, true) {
        None => (String::from_str(path), None),
        Some(i) => (swap_extension_of(&rules, path, i, true), Some(i)),
    }
}

/// The name under which a file of the backing filesystem is shown.
pub fn displayed_name(name: &str) -> (r: String)
    ensures
        r@ == spec_displayed_name(name@),
{
    let rules = transcode_rules();
    match find_rule(&rules, name, false) {
        None => String::from_str(name),
        Some(i) => swap_extension_of(&rules, name, i, false),
    }
}

/// The stream asked of the backing filesystem: `raw` is its main stream.
pub fn backing_stream<'s>(stream: &'s str) -> (r: &'s str)
    ensures
        r@ == spec_backing_stream(stream@),
{
    if same_text(stream, "raw") {
        ""
    } else {
        stream
    }
}

/// A directory listing with each name shown as `spec_displayed_name` gives
/// it, and all else kept.
pub open spec fn displayed_listing(before: Seq<FsDirEntry>, after: Seq<FsDirEntry>) -> bool {
    &&& after.len() == before.len()
    &&& forall|k: int|
        0 <= k < before.len() ==> {
            &&& (#[trigger] after[k]).name@ == spec_displayed_name(before[k].name@)
            &&& after[k].is_dir == before[k].is_dir
            &&& after[k].size == before[k].size
            &&& after[k].modification_time == before[k].modification_time
        }
}

/// The entries of a backing folder under the names they are shown by.
pub fn displayed_entries(entries: Vec<FsDirEntry>) -> (r: Vec<FsDirEntry>)
    ensures
        displayed_listing(entries@, r@),
{
    let mut out: Vec<FsDirEntry> = Vec::new();
    let mut k: usize = 0;
    while k < entries.len()
        invariant
            0 <= k <= entries@.len(),
            displayed_listing(entries@.take(k as int), out@),
        decreases entries.len() - k,
    {
        let e = &entries[k];
        let name = displayed_name(e.name.as_str());
        out.push(
            FsDirEntry {
                name,
                is_dir: e.is_dir,
                size: e.size,
                modification_time: e.modification_time,
            },
        );
        k = k + 1;
        assert(entries@.take(k as int).drop_last() =~= entries@.take(k - 1));
    }
    assert(entries@.take(k as int) =~= entries@);
    out
}

/// A file whose converted bytes are held in memory.
pub struct VecFileHandle {
    pub data: Vec<u8>,
    pub timestamp: SystemTime,
    pub file_id: u64,
}

impl FsReadHandle for VecFileHandle {
    open spec fn is_dir_gives(&self, r: bool) -> bool {
        !r
    }

    open spec fn len_gives(&self, r: Option<usize>) -> bool {
        r == Some(self.data@.len() as usize)
    }

    open spec fn read_gives(&self, offset: u64, before: Seq<u8>, r: Result<usize, FsError>, after: Seq<u8>) -> bool {
        read_outcome(self.data@, offset, before, r, after)
    }

    open spec fn files_give(&self, r: Result<Vec<FsDirEntry>, FsError>) -> bool {
        r == Err::<Vec<FsDirEntry>, FsError>(FsError::NotDirectory)
    }

    open spec fn streams_give(&self, r: Result<Vec<FsStreamEntry>, FsError>) -> bool {
        r matches Ok(v) && v@.len() == 1 && v@[0].name@ == "raw"@ && v@[0].size == self.data@.len() as i64
    }

    open spec fn info_gives(&self, r: Result<FsFileInfo, FsError>) -> bool {
        r matches Ok(info) && !info.is_dir && info.read_only && info.file_size == self.data@.len()
            && info.file_index == self.file_id && info.creation_time == self.timestamp
            && info.last_write_time == self.timestamp && info.last_access_time == self.timestamp
            && info.number_of_links == 1
    }

    fn is_dir(&self) -> (r: bool)
        ensures
            !r,
    {
        false
    }

    fn len(&self) -> (r: Option<usize>)
        ensures
            r == Some(self.data@.len() as usize),
    {
        Some(self.data.len())
    }

    fn read_at(&self, buf: &mut [u8], offset: u64) -> (r: Result<usize, FsError>)
        ensures
            read_outcome(self.data@, offset, old(buf)@, r, final(buf)@),
    {
        read_slice_at(self.data.as_slice(), buf, offset)
    }

    fn find_files(&self) -> (r: Result<Vec<FsDirEntry>, FsError>)
        ensures
            r == Err::<Vec<FsDirEntry>, FsError>(FsError::NotDirectory),
    {
        Err(FsError::NotDirectory)
    }

    /// One stream, `raw`, of the converted length.
    fn list_streams(&self) -> (r: Result<Vec<FsStreamEntry>, FsError>)
        ensures
            r matches Ok(v) && v@.len() == 1 && v@[0].name@ == "raw"@ && v@[0].size
                == self.data@.len() as i64,
    {
        let mut v: Vec<FsStreamEntry> = Vec::new();
        v.push(FsStreamEntry { name: String::from_str("raw"), size: self.data.len() as i64 });
        Ok(v)
    }

    fn get_file_info(&self) -> (r: Result<FsFileInfo, FsError>)
        ensures
            r matches Ok(info) && !info.is_dir && info.read_only && info.file_size
                == self.data@.len() && info.file_index == self.file_id && info.creation_time
                == self.timestamp && info.last_write_time == self.timestamp
                && info.last_access_time == self.timestamp && info.number_of_links == 1,
    {
        Ok(
            FsFileInfo {
                is_dir: false,
                read_only: true,
                file_size: self.data.len() as u64,
                file_index: self.file_id,
                creation_time: self.timestamp,
                last_write_time: self.timestamp,
                last_access_time: self.timestamp,
                number_of_links: 1,
            },
        )
    }
}

/// A folder of the backing filesystem, whose listing shows names as the
/// rules display them.
pub struct FolderHandle<H> {
    pub backing: H,
}

impl<H: FsReadHandle> FsReadHandle for FolderHandle<H> {
    open spec fn is_dir_gives(&self, r: bool) -> bool {
        r
    }

    /// What the backing folder gives.
    open spec fn len_gives(&self, r: Option<usize>) -> bool {
        self.backing.len_gives(r)
    }

    /// What the backing folder gives.
    open spec fn read_gives(&self, offset: u64, before: Seq<u8>, r: Result<usize, FsError>, after: Seq<u8>) -> bool {
        self.backing.read_gives(offset, before, r, after)
    }

    /// A listing of the backing folder under the displayed names, or the
    /// backing folder's error.
    open spec fn files_give(&self, r: Result<Vec<FsDirEntry>, FsError>) -> bool {
        match r {
            Ok(v) => exists|e: Vec<FsDirEntry>|
                #[trigger] self.backing.files_give(Ok::<Vec<FsDirEntry>, FsError>(e)) && displayed_listing(
                    e@,
                    v@,
                ),
            Err(err) => self.backing.files_give(Err::<Vec<FsDirEntry>, FsError>(err)),
        }
    }

    /// What the backing folder gives.
    open spec fn streams_give(&self, r: Result<Vec<FsStreamEntry>, FsError>) -> bool {
        self.backing.streams_give(r)
    }

    /// What the backing folder gives.
    open spec fn info_gives(&self, r: Result<FsFileInfo, FsError>) -> bool {
        self.backing.info_gives(r)
    }

    fn is_dir(&self) -> (r: bool)
        ensures
            r,
    {
        true
    }

    fn len(&self) -> (r: Option<usize>) {
        self.backing.len()
    }

    fn read_at(&self, buf: &mut [u8], offset: u64) -> (r: Result<usize, FsError>) {
        self.backing.read_at(buf, offset)
    }

    /// The backing folder's listing, by `displayed_entries`.
    fn find_files(&self) -> (r: Result<Vec<FsDirEntry>, FsError>) {
        match self.backing.find_files() {
            Ok(entries) => {
                let ghost e = entries;
                let shown = displayed_entries(entries);
                assert(self.backing.files_give(Ok::<Vec<FsDirEntry>, FsError>(e)));
                Ok(shown)
            },
            Err(e) => Err(e),
        }
    }

    fn list_streams(&self) -> (r: Result<Vec<FsStreamEntry>, FsError>) {
        self.backing.list_streams()
    }

    fn get_file_info(&self) -> (r: Result<FsFileInfo, FsError>) {
        self.backing.get_file_info()
    }
}

/// What the transcoding filesystem opens: a folder, a converted file, or a
/// file of the backing filesystem as it is.
pub enum TranscodedHandle<H> {
    Folder(FolderHandle<H>),
    Converted(VecFileHandle),
    Passed(H),
}

impl<H: FsReadHandle> FsReadHandle for TranscodedHandle<H> {
    open spec fn is_dir_gives(&self, r: bool) -> bool {
        match self {
            TranscodedHandle::Folder(f) => f.is_dir_gives(r),
            TranscodedHandle::Converted(v) => v.is_dir_gives(r),
            TranscodedHandle::Passed(h) => h.is_dir_gives(r),
        }
    }

    open spec fn len_gives(&self, r: Option<usize>) -> bool {
        match self {
            TranscodedHandle::Folder(f) => f.len_gives(r),
            TranscodedHandle::Converted(v) => v.len_gives(r),
            TranscodedHandle::Passed(h) => h.len_gives(r),
        }
    }

    open spec fn read_gives(&self, offset: u64, before: Seq<u8>, r: Result<usize, FsError>, after: Seq<u8>) -> bool {
        match self {
            TranscodedHandle::Folder(f) => f.read_gives(offset, before, r, after),
            TranscodedHandle::Converted(v) => v.read_gives(offset, before, r, after),
            TranscodedHandle::Passed(h) => h.read_gives(offset, before, r, after),
        }
    }

    open spec fn files_give(&self, r: Result<Vec<FsDirEntry>, FsError>) -> bool {
        match self {
            TranscodedHandle::Folder(f) => f.files_give(r),
            TranscodedHandle::Converted(v) => v.files_give(r),
            TranscodedHandle::Passed(h) => h.files_give(r),
        }
    }

    open spec fn streams_give(&self, r: Result<Vec<FsStreamEntry>, FsError>) -> bool {
        match self {
            TranscodedHandle::Folder(f) => f.streams_give(r),
            TranscodedHandle::Converted(v) => v.streams_give(r),
            TranscodedHandle::Passed(h) => h.streams_give(r),
        }
    }

    open spec fn info_gives(&self, r: Result<FsFileInfo, FsError>) -> bool {
        match self {
            TranscodedHandle::Folder(f) => f.info_gives(r),
            TranscodedHandle::Converted(v) => v.info_gives(r),
            TranscodedHandle::Passed(h) => h.info_gives(r),
        }
    }

    /// A folder is one; a converted file is not; a passed handle says.
    fn is_dir(&self) -> (r: bool)
        ensures
            self is Folder ==> r,
            self is Converted ==> !r,
    {
        match self {
            TranscodedHandle::Folder(f) => f.is_dir(),
            TranscodedHandle::Converted(v) => v.is_dir(),
            TranscodedHandle::Passed(h) => h.is_dir(),
        }
    }

    fn len(&self) -> (r: Option<usize>)
        ensures
            self matches TranscodedHandle::Converted(v) ==> r == Some(v.data@.len() as usize),
    {
        match self {
            TranscodedHandle::Folder(f) => f.len(),
            TranscodedHandle::Converted(v) => v.len(),
            TranscodedHandle::Passed(h) => h.len(),
        }
    }

    fn read_at(&self, buf: &mut [u8], offset: u64) -> (r: Result<usize, FsError>)
        ensures
            self matches TranscodedHandle::Converted(v) ==> read_outcome(v.data@, offset, old(buf)@, r, final(buf)@),
    {
        match self {
            TranscodedHandle::Folder(f) => f.read_at(buf, offset),
            TranscodedHandle::Converted(v) => v.read_at(buf, offset),
            TranscodedHandle::Passed(h) => h.read_at(buf, offset),
        }
    }

    fn find_files(&self) -> (r: Result<Vec<FsDirEntry>, FsError>)
        ensures
            self is Converted ==> r == Err::<Vec<FsDirEntry>, FsError>(FsError::NotDirectory),
    {
        match self {
            TranscodedHandle::Folder(f) => f.find_files(),
            TranscodedHandle::Converted(v) => v.find_files(),
            TranscodedHandle::Passed(h) => h.find_files(),
        }
    }

    fn list_streams(&self) -> (r: Result<Vec<FsStreamEntry>, FsError>)
        ensures
            self matches TranscodedHandle::Converted(v) ==> (r matches Ok(s) && s@.len() == 1 && s@[0].name@
                == "raw"@ && s@[0].size == v.data@.len() as i64),
    {
        match self {
            TranscodedHandle::Folder(f) => f.list_streams(),
            TranscodedHandle::Converted(v) => v.list_streams(),
            TranscodedHandle::Passed(h) => h.list_streams(),
        }
    }

    fn get_file_info(&self) -> (r: Result<FsFileInfo, FsError>)
        ensures
            self matches TranscodedHandle::Converted(v) ==> (r matches Ok(info) && !info.is_dir
                && info.file_size == v.data@.len() && info.file_index == v.file_id),
    {
        match self {
            TranscodedHandle::Folder(f) => f.get_file_info(),
            TranscodedHandle::Converted(v) => v.get_file_info(),
            TranscodedHandle::Passed(h) => h.get_file_info(),
        }
    }
}

/// A filesystem that shows `backing` through the rules: string tables as
/// JSON with the names of `hashlist`, script data as generic or custom XML
/// with numbers shown by `number_text`, and sound bank lists as text.
pub struct TranscoderFs<B, N: Fn(u32) -> String> {
    hashlist: Arc<HashIndex>,
    backing: B,
    number_text: N,
}

impl<B, N: Fn(u32) -> String> TranscoderFs<B, N> {
    #[verifier::type_invariant]
    spec fn fs_wf(&self) -> bool {
        &&& self.hashlist.wf()
        &&& formats_numbers(self.number_text)
    }

    /// The hashlist that names the keys of converted string tables.
    pub closed spec fn hashes(&self) -> HashIndex {
        *self.hashlist
    }

    /// The filesystem shown.
    pub closed spec fn backing_fs(&self) -> B {
        self.backing
    }

    /// The text of each number in converted script data.
    pub closed spec fn numbers(&self) -> spec_fn(u32) -> Seq<char> {
        number_texts(self.number_text)
    }
}

/// The bytes of a string.
fn text_bytes(s: String) -> (r: Vec<u8>)
    ensures
        r@ == vstd::utf8::encode_utf8(s@),
{
    s.as_str().as_bytes_vec()
}

impl<B: ReadOnlyFs, N: Fn(u32) -> String> TranscoderFs<B, N> {
    /// Converts the bytes of a file as `kind` says, or `None` where they
    /// cannot be converted.
    fn transcode(&self, kind: Transcode, input: &[u8]) -> (r: Option<Vec<u8>>)
        ensures
            r matches Some(out) ==> converts_to(kind, self.hashes(), self.numbers(), input@, out@),
            r is None ==> conversion_fails(kind, self.numbers(), input@),
    {
        proof {
            use_type_invariant(self);
        }
        match kind {
            Transcode::Strings => {
                if !string_table_readable(input) {
                    return None;
                }
                Some(bytes_to_json(&self.hashlist, input))
            },
            Transcode::Banksinfo => match banksinfo_text(input) {
                None => None,
                Some(t) => Some(text_bytes(t)),
            },
            Transcode::ScriptdataGeneric => match from_binary(input, false) {
                Err(_) => None,
                Ok(doc) => match generic_xml::dump(&doc, &self.number_text) {
                    None => None,
                    Some(t) => {
                        let ghost tv = t@;
                        let out = text_bytes(t);
                        assert(generic_xml::spec_dump(doc, self.numbers()) == Some(tv));
                        Some(out)
                    },
                },
            },
            Transcode::ScriptdataCustom => match from_binary(input, false) {
                Err(_) => None,
                Ok(doc) => match custom_xml::dump(&doc, &self.number_text) {
                    None => None,
                    Some(t) => {
                        let ghost tv = t@;
                        let out = text_bytes(t);
                        assert(custom_xml::spec_custom_dump(doc, self.numbers()) == Some(tv));
                        Some(out)
                    },
                },
            },
        }
    }

    /// Reads the whole file `h` opened and converts it as `kind` says.
    fn convert(&self, h: &B::Handle, kind: Transcode) -> (r: Result<VecFileHandle, FsError>)
        ensures
            r matches Ok(v) ==> converted_from(*h, v, kind, self.hashes(), self.numbers()),
            r matches Err(e) ==> conversion_read_fails(*h, e, kind, self.numbers()),
    {
        proof {
            reveal(conversion_read_fails);
            reveal(converted_from);
        }
        let info = match h.get_file_info() {
            Ok(info) => info,
            Err(e) => {
                assert(conversion_read_fails(*h, e, kind, self.numbers()));
                return Err(e);
            },
        };
        let mut back_buf = zeroed(info.file_size as usize);
        let ghost before = back_buf@;
        let n = match h.read_at(back_buf.as_mut_slice(), 0) {
            Ok(n) => n,
            Err(e) => {
                assert(h.read_gives(0, before, Err::<usize, FsError>(e), back_buf@));
                assert(conversion_read_fails(*h, e, kind, self.numbers()));
                return Err(e);
            },
        };
        assert(h.read_gives(0, before, Ok::<usize, FsError>(n), back_buf@));
        let front_buf = match self.transcode(kind, back_buf.as_slice()) {
            None => {
                assert(conversion_read_fails(*h, FsError::FileCorrupt, kind, self.numbers()));
                return Err(FsError::FileCorrupt);
            },
            Some(out) => out,
        };
        let v = VecFileHandle { data: front_buf, timestamp: info.creation_time, file_id: info.file_index };
        assert(converted_from(*h, v, kind, self.hashes(), self.numbers()));
        Ok(v)
    }

    pub fn new(hashlist: Arc<HashIndex>, backing: B, number_text: N) -> (r: Self)
        requires
            hashlist.wf(),
            formats_numbers(number_text),
        ensures
            r.hashes() == *hashlist,
            r.backing_fs() == backing,
            r.numbers() == number_texts(number_text),
    {
        TranscoderFs { hashlist, backing, number_text }
    }
}

/// Whether `out` is the UTF-8 bytes of the text `o` gives.
pub open spec fn text_out(o: Option<Seq<char>>, out: Seq<u8>) -> bool {
    match o {
        Some(t) => out == vstd::utf8::encode_utf8(t),
        None => false,
    }
}

/// Whether `out` is what `kind` makes of the bytes `input`: a string table
/// as JSON with the names of `hl`; binary script data read into a document
/// and written as generic or custom XML with the number texts `nums`; the
/// text of reading a sound bank list.
pub open spec fn converts_to(
    kind: Transcode,
    hl: HashIndex,
    nums: spec_fn(u32) -> Seq<char>,
    input: Seq<u8>,
    out: Seq<u8>,
) -> bool {
    match kind {
        Transcode::Strings => table_json(input, hl, out),
        Transcode::Banksinfo => exists|t: Seq<char>|
            #[trigger] bank_text_of(input, t) && out == vstd::utf8::encode_utf8(t),
        Transcode::ScriptdataGeneric => exists|doc: Document|
            #[trigger] binary_reads(input, false, Ok::<Document, BinaryError>(doc)) && text_out(generic_xml::spec_dump(doc, nums), out),
        Transcode::ScriptdataCustom => exists|doc: Document|
            #[trigger] binary_reads(input, false, Ok::<Document, BinaryError>(doc)) && text_out(custom_xml::spec_custom_dump(doc, nums), out),
    }
}

/// Whether `kind` cannot convert the bytes `input`: a string table or a
/// sound bank list that cannot be read, script data that cannot be read, or
/// a document that cannot be written.
pub open spec fn conversion_fails(kind: Transcode, nums: spec_fn(u32) -> Seq<char>, input: Seq<u8>) -> bool {
    match kind {
        Transcode::Strings => !table_readable(input),
        Transcode::Banksinfo => !banksinfo_readable(input),
        Transcode::ScriptdataGeneric => (exists|e: BinaryError| #[trigger] binary_reads(input, false, Err::<Document, BinaryError>(e)))
            || exists|doc: Document|
            #[trigger] binary_reads(input, false, Ok::<Document, BinaryError>(doc)) && generic_xml::spec_dump(doc, nums) is None,
        Transcode::ScriptdataCustom => (exists|e: BinaryError| #[trigger] binary_reads(input, false, Err::<Document, BinaryError>(e)))
            || exists|doc: Document|
            #[trigger] binary_reads(input, false, Ok::<Document, BinaryError>(doc)) && custom_xml::spec_custom_dump(doc, nums) is None,
    }
}

/// The conversion that applies to a displayed path and stream, if any.
pub fn conversion_for(path: &str, stream: &str) -> (r: Option<Transcode>)
    ensures
        r == spec_conversion(path@, stream@),
{
    if !same_text(stream, "") {
        return None;
    }
    let rules = transcode_rules();
    match find_rule(&rules, path, true) {
        None => None,
        Some(i) => rules[i].transformer,
    }
}

/// `n` zero bytes.
pub open spec fn zero_bytes(n: nat) -> Seq<u8> {
    Seq::new(n, |_i: int| 0u8)
}

/// A buffer of `n` zero bytes.
fn zeroed(n: usize) -> (r: Vec<u8>)
    ensures
        r@ == zero_bytes(n as nat),
{
    let mut v: Vec<u8> = Vec::new();
    while v.len() < n
        invariant
            v@.len() <= n,
            v@ == zero_bytes(v@.len()),
        decreases n - v.len(),
    {
        v.push(0);
        assert(v@ =~= zero_bytes(v@.len()));
    }
    v
}

/// Whether converting the file that `h` opened fails with `e`: its
/// information, or a read of all of it from the start into a zeroed buffer
/// of its size, fails with `e`; or the bytes read cannot be converted
/// (`conversion_fails`), and `e` is `FileCorrupt`.
#[verifier::opaque]
pub open spec fn conversion_read_fails<H: FsReadHandle>(h: H, e: FsError, kind: Transcode, nums: spec_fn(u32) -> Seq<char>) -> bool {
    ||| h.info_gives(Err::<FsFileInfo, FsError>(e))
    ||| exists|info: FsFileInfo, after: Seq<u8>|
        #[trigger] h.info_gives(Ok::<FsFileInfo, FsError>(info)) && #[trigger] h.read_gives(
            0,
            zero_bytes(info.file_size as usize as nat),
            Err::<usize, FsError>(e),
            after,
        )
    ||| exists|info: FsFileInfo, n: usize, after: Seq<u8>|
        #[trigger] h.info_gives(Ok::<FsFileInfo, FsError>(info)) && #[trigger] h.read_gives(
            0,
            zero_bytes(info.file_size as usize as nat),
            Ok::<usize, FsError>(n),
            after,
        ) && conversion_fails(kind, nums, after) && e == FsError::FileCorrupt
}

/// Whether `v` is the converted file made from the file that `h` opened:
/// its information reads, a read of all of it from the start into a zeroed
/// buffer of its size succeeds, `v` takes the file's creation time and
/// index, and its bytes are what `converts_to` says of the bytes read.
#[verifier::opaque]
pub open spec fn converted_from<H: FsReadHandle>(
    h: H,
    v: VecFileHandle,
    kind: Transcode,
    hl: HashIndex,
    nums: spec_fn(u32) -> Seq<char>,
) -> bool {
    exists|info: FsFileInfo, n: usize, after: Seq<u8>|
        #[trigger] h.info_gives(Ok::<FsFileInfo, FsError>(info)) && #[trigger] h.read_gives(
            0,
            zero_bytes(info.file_size as usize as nat),
            Ok::<usize, FsError>(n),
            after,
        ) && v.timestamp == info.creation_time && v.file_id == info.file_index && converts_to(
            kind,
            hl,
            nums,
            after,
            v.data@,
        )
}

impl<B: ReadOnlyFs, N: Fn(u32) -> String> ReadOnlyFs for TranscoderFs<B, N> {
    type Handle = TranscodedHandle<B::Handle>;

    /// The backing filesystem opens `spec_backing_path(path)`, stream
    /// `spec_backing_stream(stream)`: its error is passed on; a folder is
    /// shown through the rules; a file without a conversion is passed as it
    /// is; a file with one is read whole and converted (a string table to
    /// JSON), or the error of reading it is passed on (`FileCorrupt` for a
    /// string table that cannot be read).
    open spec fn opens(&self, path: Seq<char>, stream: Seq<char>, r: Result<TranscodedHandle<B::Handle>, FsError>) -> bool {
        let bp = spec_backing_path(path);
        let bs = spec_backing_stream(stream);
        match r {
            Err(e) => {
                ||| self.backing_fs().opens(bp, bs, Err::<B::Handle, FsError>(e))
                ||| exists|h: B::Handle|
                    #[trigger] self.backing_fs().opens(bp, bs, Ok::<B::Handle, FsError>(h)) && h.is_dir_gives(false)
                        && spec_conversion(path, stream) is Some && conversion_read_fails(
                        h,
                        e,
                        spec_conversion(path, stream)->0,
                        self.numbers(),
                    )
            },
            Ok(TranscodedHandle::Folder(f)) => self.backing_fs().opens(bp, bs, Ok::<B::Handle, FsError>(f.backing))
                && f.backing.is_dir_gives(true),
            Ok(TranscodedHandle::Passed(h)) => self.backing_fs().opens(bp, bs, Ok::<B::Handle, FsError>(h))
                && h.is_dir_gives(false) && spec_conversion(path, stream) is None,
            Ok(TranscodedHandle::Converted(v)) => spec_conversion(path, stream) is Some && exists|h: B::Handle|
                #[trigger] self.backing_fs().opens(bp, bs, Ok::<B::Handle, FsError>(h)) && h.is_dir_gives(false)
                    && converted_from(h, v, spec_conversion(path, stream)->0, self.hashes(), self.numbers()),
        }
    }

    /// Opens `spec_backing_path(path)`, stream `spec_backing_stream(stream)`,
    /// of the backing filesystem. A folder is shown through the rules; the
    /// main stream of a file that a rule converts is read whole and
    /// converted, a string table to JSON by `bytes_to_json` and the other
    /// kinds by the transcoder; anything else is the backing handle as it is.
    /// An error of the backing filesystem is passed on.
    fn open_readable(&self, path: &str, stream: &str) -> (r: Result<TranscodedHandle<B::Handle>, FsError>)
        ensures
            r matches Ok(TranscodedHandle::Converted(_)) ==> spec_conversion(path@, stream@) is Some,
    {
        let (real_path, _) = backing_path(path);
        let backing_handle = match self.backing.open_readable(real_path.as_str(), backing_stream(stream)) {
            Ok(h) => h,
            Err(e) => return Err(e),
        };
        let ghost h = backing_handle;
        assert(self.backing_fs().opens(
            spec_backing_path(path@),
            spec_backing_stream(stream@),
            Ok::<B::Handle, FsError>(h),
        ));
        if backing_handle.is_dir() {
            return Ok(TranscodedHandle::Folder(FolderHandle { backing: backing_handle }));
        }
        match conversion_for(path, stream) {
            None => Ok(TranscodedHandle::Passed(backing_handle)),
            Some(kind) => {
                let v = match self.convert(&backing_handle, kind) {
                    Ok(v) => v,
                    Err(e) => return Err(e),
                };
                Ok(TranscodedHandle::Converted(v))
            },
        }
    }
}

/// A name that ends with `a` has, at `j` from its end, the character of `a`
/// there.
proof fn lemma_suffix_at(n: Seq<char>, a: Seq<char>, j: int)
    requires
        has_suffix(n, a),
        0 <= j < a.len(),
    ensures
        n[n.len() - 1 - j] == a[a.len() - 1 - j],
{
    assert(n.subrange(n.len() - a.len(), n.len() as int)[a.len() - 1 - j] == a[a.len() - 1 - j]);
}

/// `a` and `b` differ within their last three characters, so no name ends
/// with both.
pub open spec fn ends_apart(a: Seq<char>, b: Seq<char>) -> bool {
    &&& a.len() >= 3
    &&& b.len() >= 3
    &&& {
        ||| a[a.len() - 1] != b[b.len() - 1]
        ||| a[a.len() - 2] != b[b.len() - 2]
        ||| a[a.len() - 3] != b[b.len() - 3]
    }
}

proof fn lemma_apart(n: Seq<char>, a: Seq<char>, b: Seq<char>)
    requires
        ends_apart(a, b),
        has_suffix(n, a),
    ensures
        !has_suffix(n, b),
{
    if has_suffix(n, b) {
        lemma_suffix_at(n, a, 0);
        lemma_suffix_at(n, b, 0);
        lemma_suffix_at(n, a, 1);
        lemma_suffix_at(n, b, 1);
        lemma_suffix_at(n, a, 2);
        lemma_suffix_at(n, b, 2);
    }
}

/// The shape of the table: the first three rules rename, each of the others
/// shows its extension unchanged; no name ends with the displayed extension
/// of a renaming rule and with an extension of a later rule.
proof fn lemma_table_shape()
    ensures
        rule_table().len() == 26,
        forall|i: int|
            3 <= i < 26 ==> (#[trigger] rule_table()[i]).displayed_extension@
                == rule_table()[i].backing_extension@,
        forall|i: int, k: int|
            0 <= k < 3 && k < i < 26 ==> ends_apart(
                (#[trigger] rule_table()[i]).backing_extension@,
                (#[trigger] rule_table()[k]).displayed_extension@,
            ),
        forall|i: int, k: int|
            0 <= k < i < 3 ==> ends_apart(
                (#[trigger] rule_table()[i]).displayed_extension@,
                (#[trigger] rule_table()[k]).displayed_extension@,
            ),
{
    reveal_strlit(".movie");
    reveal_strlit(".texture");
    reveal_strlit(".stream");
    reveal_strlit(".bink");
    reveal_strlit(".dds");
    reveal_strlit(".wem");
    reveal_strlit(".strings");
    reveal_strlit(".banksinfo");
    reveal_strlit("mission.mission");
    reveal_strlit("world.world");
    reveal_strlit(".achievement");
    reveal_strlit(".action_message");
    reveal_strlit(".credits");
    reveal_strlit(".comment");
    reveal_strlit(".continent");
    reveal_strlit(".continents");
    reveal_strlit(".cover_data");
    reveal_strlit(".dialog");
    reveal_strlit(".environment");
    reveal_strlit(".hint");
    reveal_strlit(".menu");
    reveal_strlit(".mission");
    reveal_strlit(".nav_data");
    reveal_strlit(".objective");
    reveal_strlit(".sequence_manager");
    reveal_strlit(".timeline");
    reveal_strlit(".world");
    reveal_strlit(".world_cameras");
    reveal_strlit(".world_sounds");
}

/// `first_rule_from` finds `i` exactly when the extension of rule `i` ends the
/// name and no rule from `k` up to `i` has one that does.
proof fn lemma_first_rule_is(rules: Seq<TranscodeRule>, name: Seq<char>, displayed: bool, k: int, i: int)
    requires
        0 <= k <= i < rules.len(),
    ensures
        first_rule_from(rules, name, displayed, k) == Some(i) <==> (has_suffix(
            name,
            extension_of(rules[i], displayed),
        ) && forall|m: int| k <= m < i ==> !has_suffix(name, #[trigger] extension_of(rules[m], displayed))),
    decreases i - k,
{
    if k < i {
        lemma_first_rule_is(rules, name, displayed, k + 1, i);
        let ek = extension_of(rules[k], displayed);
        if has_suffix(name, ek) {
            assert(first_rule_from(rules, name, displayed, k) == Some(k));
        } else {
            assert(first_rule_from(rules, name, displayed, k) == first_rule_from(
                rules,
                name,
                displayed,
                k + 1,
            ));
        }
    } else {
        lemma_first_rule_matches(rules, name, displayed, k + 1);
    }
}

/// Putting back the suffix that was cut off gives the name again.
proof fn lemma_cut_and_put_back(n: Seq<char>, a: Seq<char>)
    requires
        has_suffix(n, a),
    ensures
        n.subrange(0, n.len() - a.len()) + a == n,
{
    assert(n.subrange(0, n.len() - a.len()) + a =~= n);
}

/// The name shown for a file of the backing filesystem opens that file.
/// This holds of every name except one that ends with no backing extension
/// of a rule but with a displayed one (such as `x.bink`), which is shown
/// unchanged and opens as another file.
pub proof fn lemma_displayed_name_opens_backing(n: Seq<char>)
    requires
        rule_for(n, false) is Some || rule_for(n, true) is None,
    ensures
        spec_backing_path(spec_displayed_name(n)) == n,
{
    lemma_table_shape();
    let t = rule_table();
    match rule_for(n, false) {
        None => {},
        Some(i) => {
            lemma_first_rule_matches(t, n, false, 0);
            lemma_first_rule_is(t, n, false, 0, i);
            let b = t[i].backing_extension@;
            let d = spec_displayed_name(n);
            if i >= 3 {
                lemma_cut_and_put_back(n, b);
                assert(d == n);
                assert forall|m: int| 0 <= m < i implies !has_suffix(
                    n,
                    #[trigger] extension_of(t[m], true),
                ) by {
                    if m < 3 {
                        lemma_apart(n, b, t[m].displayed_extension@);
                    } else {
                        assert(!has_suffix(n, extension_of(t[m], false)));
                    }
                }
                lemma_first_rule_is(t, n, true, 0, i);
                assert(rule_for(n, true) == Some(i));
            } else {
                let e = t[i].displayed_extension@;
                let head = n.subrange(0, n.len() - b.len());
                assert(d == head + e);
                assert(d.subrange(d.len() - e.len(), d.len() as int) =~= e);
                assert(has_suffix(d, e));
                assert forall|m: int| 0 <= m < i implies !has_suffix(
                    d,
                    #[trigger] extension_of(t[m], true),
                ) by {
                    lemma_apart(d, e, t[m].displayed_extension@);
                }
                lemma_first_rule_is(t, d, true, 0, i);
                assert(rule_for(d, true) == Some(i));
                assert(d.subrange(0, d.len() - e.len()) =~= head);
                lemma_cut_and_put_back(n, b);
            }
        },
    }
}

} // verus!
