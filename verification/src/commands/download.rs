//! What is known of a dump before it is fetched: the state of its jobs and
//! the files they made, and where each file goes.

use vstd::prelude::*;
use crate::text::{chars_of, contains_text, first_occurrence, push_text, string_of};

verus! {

/// A file of a dump.
#[derive(Debug)]
pub struct FileStatus {
    pub size: u64,
    pub url: String,
    pub md5: String,
}

impl View for FileStatus {
    type V = (u64, Seq<char>, Seq<char>);

    open spec fn view(&self) -> (u64, Seq<char>, Seq<char>) {
        (self.size, self.url@, self.md5@)
    }
}

impl FileStatus {
    /// A copy of the file's record.
    pub fn copy(&self) -> (c: FileStatus)
        ensures
            c@ == self@,
    {
        FileStatus { size: self.size, url: self.url.clone(), md5: self.md5.clone() }
    }
}

/// The time at which a job was last updated, in seconds since 1970 in UTC.
#[derive(Clone, Copy, Debug)]
pub struct WikiDateTime(pub i64);

/// The state of one job of a dump.
#[derive(Debug)]
pub enum JobStatus {
    /// The job is done. Its files are listed by name, in ascending order.
    Done { updated: WikiDateTime, files: Vec<(String, FileStatus)> },
    /// The job has not run yet.
    Waiting,
}

/// The states of the jobs of a dump that are of interest.
#[derive(Debug)]
pub struct JobsStatus {
    pub site_stats: JobStatus,
    pub all_page_titles_dump: JobStatus,
    pub articles_multistream_dump: JobStatus,
}

/// The state of a dump.
#[derive(Debug)]
pub struct DumpStatus {
    pub date: Option<String>,
    pub jobs: JobsStatus,
    pub version: String,
}

/// The number of slashes that the text starts with.
pub open spec fn leading_slashes(s: Seq<char>) -> int
    decreases s.len(),
{
    if s.len() > 0 && s[0] == '/' {
        1 + leading_slashes(s.drop_first())
    } else {
        0
    }
}

/// The text without the slashes that it starts with.
pub open spec fn without_leading_slashes(s: Seq<char>) -> Seq<char> {
    s.skip(leading_slashes(s))
}

/// The number of slashes that the text ends with.
pub open spec fn trailing_slashes(s: Seq<char>) -> int
    decreases s.len(),
{
    if s.len() > 0 && s.last() == '/' {
        1 + trailing_slashes(s.drop_last())
    } else {
        0
    }
}

/// The text without the slashes that it ends with.
pub open spec fn without_trailing_slashes(s: Seq<char>) -> Seq<char> {
    s.take(s.len() - trailing_slashes(s))
}

/// The text without the slashes that it starts with.
pub fn trim_leading_slashes(text: &str) -> (out: String)
    ensures
        out@ == without_leading_slashes(text@),
{
    let chars = chars_of(text);
    let mut i: usize = 0;
    assert(chars@.skip(0) =~= chars@);
    while i < chars.len() && chars[i] == '/'
        invariant
            0 <= i <= chars.len(),
            leading_slashes(chars@) == i + leading_slashes(chars@.skip(i as int)),
        decreases chars.len() - i,
    {
        assert(chars@.skip(i as int).drop_first() =~= chars@.skip(i + 1));
        i += 1;
    }
    assert(chars@.subrange(i as int, chars@.len() as int) =~= chars@.skip(i as int));
    string_of(&chars, i, chars.len())
}

/// The text without the slashes that it ends with.
pub fn trim_trailing_slashes(text: &str) -> (out: String)
    ensures
        out@ == without_trailing_slashes(text@),
{
    let chars = chars_of(text);
    let mut n: usize = chars.len();
    assert(chars@.take(n as int) =~= chars@);
    while n > 0 && chars[n - 1] == '/'
        invariant
            0 <= n <= chars.len(),
            trailing_slashes(chars@) == chars.len() - n + trailing_slashes(chars@.take(n as int)),
        decreases n,
    {
        assert(chars@.take(n as int).drop_last() =~= chars@.take(n - 1));
        n -= 1;
    }
    assert(chars@.subrange(0, n as int) =~= chars@.take(n as int));
    string_of(&chars, 0, n)
}

/// The views of the files of a job.
pub open spec fn file_views(files: Seq<(String, FileStatus)>) -> Seq<
    (Seq<char>, (u64, Seq<char>, Seq<char>)),
> {
    files.map_values(|f: (String, FileStatus)| (f.0@, f.1@))
}

/// The files with relative addresses: the same files, each without the
/// slashes that its address starts with.
pub open spec fn relative(
    files: Seq<(Seq<char>, (u64, Seq<char>, Seq<char>))>,
) -> Seq<(Seq<char>, (u64, Seq<char>, Seq<char>))> {
    files.map_values(
        |f: (Seq<char>, (u64, Seq<char>, Seq<char>))|
            (f.0, (f.1.0, without_leading_slashes(f.1.1), f.1.2)),
    )
}

impl JobStatus {
    /// `after` is this job with relative addresses.
    pub open spec fn fixed(&self, after: JobStatus) -> bool {
        &&& (after is Done) == (*self is Done)
        &&& after.file_seq() == relative(self.file_seq())
        &&& after is Done ==> after->updated == self->updated
    }

    /// The files of the job, as values of specifications; none for a job
    /// that is not done.
    pub open spec fn file_seq(&self) -> Seq<(Seq<char>, (u64, Seq<char>, Seq<char>))> {
        match self {
            JobStatus::Done { files, .. } => file_views(files@),
            JobStatus::Waiting => Seq::empty(),
        }
    }

    /// Whether the job is done.
    pub fn done(&self) -> (b: bool)
        ensures
            b == (self is Done),
    {
        match self {
            JobStatus::Done { .. } => true,
            JobStatus::Waiting => false,
        }
    }

    /// Takes the leading slashes off the address of every file, so that the
    /// addresses are relative.
    pub fn fix_paths(&mut self)
        ensures
            old(self).fixed(*final(self)),
    {
        let ghost start = *self;
        match self {
            JobStatus::Done { files, .. } => {
                let ghost before = file_views(files@);
                let mut i: usize = 0;
                while i < files.len()
                    invariant
                        0 <= i <= files.len(),
                        file_views(files@).len() == before.len(),
                        forall|k: int|
                            0 <= k < i ==> (#[trigger] file_views(files@)[k]) == (
                                before[k].0,
                                (
                                    before[k].1.0,
                                    without_leading_slashes(before[k].1.1),
                                    before[k].1.2,
                                ),
                            ),
                        forall|k: int|
                            i <= k < before.len() ==> (#[trigger] file_views(files@)[k])
                                == before[k],
                    decreases files.len() - i,
                {
                    let fixed = trim_leading_slashes(files[i].1.url.as_str());
                    let ghost prev = files@;
                    files[i].1.url = fixed;
                    proof {
                        assert(files@.len() == prev.len());
                        assert(file_views(files@).len() == before.len());
                        assert forall|k: int| 0 <= k < i + 1 implies (#[trigger] file_views(
                            files@,
                        )[k]) == (
                            before[k].0,
                            (
                                before[k].1.0,
                                without_leading_slashes(before[k].1.1),
                                before[k].1.2,
                            ),
                        ) by {
                            if k < i {
                                assert(files@[k] == prev[k]);
                                assert(file_views(prev)[k] == (
                                    before[k].0,
                                    (
                                        before[k].1.0,
                                        without_leading_slashes(before[k].1.1),
                                        before[k].1.2,
                                    ),
                                ));
                            } else {
                                assert(file_views(prev)[k] == before[k]);
                                assert(files@[k].0 == prev[k].0);
                                assert(files@[k].1.size == prev[k].1.size);
                                assert(files@[k].1.md5 == prev[k].1.md5);
                                assert(files@[k].1.url == fixed);
                            }
                        }
                        assert forall|k: int| i + 1 <= k < before.len() implies (
                        #[trigger] file_views(files@)[k]) == before[k] by {
                            assert(files@[k] == prev[k]);
                            assert(file_views(prev)[k] == before[k]);
                        }
                    }
                    i += 1;
                }
                assert(file_views(files@) =~= relative(before));
            },
            JobStatus::Waiting => {
                assert(relative(start.file_seq()) =~= Seq::empty());
            },
        }
    }

    /// The files of the job, each with its name; none for a job that is not done.
    pub fn files(&self) -> (out: Vec<(String, FileStatus)>)
        ensures
            file_views(out@) == self.file_seq(),
    {
        let mut out: Vec<(String, FileStatus)> = Vec::new();
        match self {
            JobStatus::Done { files, .. } => {
                let mut i: usize = 0;
                assert(file_views(out@) =~= file_views(files@).take(0));
                while i < files.len()
                    invariant
                        0 <= i <= files.len(),
                        file_views(out@) == file_views(files@).take(i as int),
                    decreases files.len() - i,
                {
                    let ghost before = file_views(out@);
                    out.push((files[i].0.clone(), files[i].1.copy()));
                    assert(file_views(out@) =~= before.push(file_views(files@)[i as int]));
                    assert(file_views(out@) =~= file_views(files@).take(i + 1));
                    i += 1;
                }
                assert(file_views(files@).take(i as int) =~= file_views(files@));
            },
            JobStatus::Waiting => {
                assert(file_views(out@) =~= Seq::empty());
            },
        }
        out
    }
}

impl JobsStatus {
    /// Whether all jobs are done.
    pub fn done(&self) -> (b: bool)
        ensures
            b == (self.site_stats is Done && self.all_page_titles_dump is Done
                && self.articles_multistream_dump is Done),
    {
        self.site_stats.done() && self.all_page_titles_dump.done()
            && self.articles_multistream_dump.done()
    }

    /// `after` are these jobs with relative addresses.
    pub open spec fn fixed(&self, after: JobsStatus) -> bool {
        &&& self.site_stats.fixed(after.site_stats)
        &&& self.all_page_titles_dump.fixed(after.all_page_titles_dump)
        &&& self.articles_multistream_dump.fixed(after.articles_multistream_dump)
    }

    /// Takes the leading slashes off the address of every file.
    pub fn fix_paths(&mut self)
        ensures
            old(self).fixed(*final(self)),
    {
        self.site_stats.fix_paths();
        self.all_page_titles_dump.fix_paths();
        self.articles_multistream_dump.fix_paths();
    }

    /// The files of all jobs: those of the site statistics, then those of
    /// the page titles, then those of the articles.
    pub fn all_files(&self) -> (out: Vec<(String, FileStatus)>)
        ensures
            file_views(out@) == self.site_stats.file_seq() + self.all_page_titles_dump.file_seq()
                + self.articles_multistream_dump.file_seq(),
    {
        let mut out = self.site_stats.files();
        let mut second = self.all_page_titles_dump.files();
        let mut third = self.articles_multistream_dump.files();
        let ghost a = file_views(out@);
        let ghost b = file_views(second@);
        let ghost c = file_views(third@);
        out.append(&mut second);
        assert(file_views(out@) =~= a + b);
        out.append(&mut third);
        assert(file_views(out@) =~= a + b + c);
        out
    }
}

impl DumpStatus {
    /// Takes the leading slashes off the address of every file.
    pub fn fix_paths(&mut self)
        ensures
            old(self).jobs.fixed(final(self).jobs),
            final(self).date == old(self).date,
            final(self).version == old(self).version,
    {
        self.jobs.fix_paths();
    }
}

/// The name is that of a dump that can be chosen: it does not hold `latest`.
pub open spec fn is_dated(name: Seq<char>) -> bool {
    first_occurrence(name, "latest"@, 0) is None
}

/// The dumps to try, newest first: the names of the first `n` directories
/// in reverse order, without trailing slashes and without those that hold
/// `latest`.
pub open spec fn candidates_of(names: Seq<String>, n: int) -> Seq<Seq<char>>
    decreases n,
{
    if n <= 0 {
        Seq::empty()
    } else if is_dated(without_trailing_slashes(names[n - 1]@)) {
        seq![without_trailing_slashes(names[n - 1]@)] + candidates_of(names, n - 1)
    } else {
        candidates_of(names, n - 1)
    }
}

/// The dumps to try, newest first, among the directories that the index of
/// the dumps lists in ascending order.
pub fn candidates(file_names: &Vec<String>) -> (out: Vec<String>)
    ensures
        crate::json::texts(out@) == candidates_of(file_names@, file_names@.len() as int),
{
    let mut out: Vec<String> = Vec::new();
    let mut n: usize = file_names.len();
    let ghost whole = candidates_of(file_names@, file_names@.len() as int);
    assert(crate::json::texts(out@) + whole =~= whole);
    while n > 0
        invariant
            0 <= n <= file_names.len(),
            whole == candidates_of(file_names@, file_names@.len() as int),
            crate::json::texts(out@) + candidates_of(file_names@, n as int) == whole,
        decreases n,
    {
        let dir = trim_trailing_slashes(file_names[n - 1].as_str());
        let ghost before = crate::json::texts(out@);
        if !contains_text(dir.as_str(), "latest") {
            out.push(dir);
            assert(crate::json::texts(out@) =~= before.push(
                without_trailing_slashes(file_names@[n - 1]@),
            ));
            assert(crate::json::texts(out@) + candidates_of(file_names@, n - 1) =~= before
                + candidates_of(file_names@, n as int));
        }
        n -= 1;
    }
    assert(crate::json::texts(out@) + Seq::empty() =~= crate::json::texts(out@));
    out
}

/// The address of the description of a dump.
pub fn status_url(dir: &str) -> (url: String)
    ensures
        url@ == "https://dumps.wikimedia.org/enwiki/"@ + dir@ + "/dumpstatus.json"@,
{
    let mut url = "https://dumps.wikimedia.org/enwiki/".to_owned();
    push_text(&mut url, dir);
    push_text(&mut url, "/dumpstatus.json");
    url
}

/// The address of a file of a dump.
pub fn file_url(url: &str) -> (full: String)
    ensures
        full@ == "https://dumps.wikimedia.org/"@ + url@,
{
    let mut full = "https://dumps.wikimedia.org/".to_owned();
    push_text(&mut full, url);
    full
}

/// How a file of a dump is fetched.
#[derive(Debug)]
pub struct DownloadPlan {
    /// The file is an index: it is stored decompressed, as a text file.
    pub is_index: bool,
    /// The checksum of what is stored is compared with the one that the
    /// dump gives. It is not for an index, whose checksum is that of the
    /// compressed file.
    pub check_md5: bool,
}

/// How the file with the given address is fetched.
pub fn plan_download(status: &FileStatus) -> (plan: DownloadPlan)
    ensures
        plan.is_index == (first_occurrence(status.url@, "index"@, 0) is Some),
        plan.check_md5 == !plan.is_index,
{
    let is_index = contains_text(status.url.as_str(), "index");
    DownloadPlan { is_index, check_md5: !is_index }
}

/// Whether what was fetched is what the dump promised: its checksum, where
/// it is compared at all, is the one that the dump gives.
pub fn checksum_accepted(plan: &DownloadPlan, status: &FileStatus, digest: &str) -> (ok: bool)
    ensures
        ok == (!plan.check_md5 || status.md5@ == digest@),
{
    !plan.check_md5 || crate::text::same_text(status.md5.as_str(), digest)
}

} // verus!
