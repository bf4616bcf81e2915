use wiki_scraper::commands::download::{
    candidates, checksum_accepted, file_url, plan_download, status_url, trim_leading_slashes,
    trim_trailing_slashes, DumpStatus, FileStatus, JobStatus, JobsStatus, WikiDateTime,
};
use wiki_scraper::commands::long_paths::{reports_progress, Record, SAMPLERS};
use wiki_scraper::commands::random_article::{accept_random_article, ID_BOUND};

fn file(url: &str) -> FileStatus {
    FileStatus { size: 10, url: url.to_string(), md5: "abc".to_string() }
}

fn done(files: Vec<(&str, &str)>) -> JobStatus {
    JobStatus::Done {
        updated: WikiDateTime(1714566645),
        files: files.into_iter().map(|(name, url)| (name.to_string(), file(url))).collect(),
    }
}

#[test]
fn jobs_are_done_when_all_are() {
    let mut jobs = JobsStatus {
        site_stats: done(vec![("stats.gz", "/enwiki/stats.gz")]),
        all_page_titles_dump: JobStatus::Waiting,
        articles_multistream_dump: done(vec![]),
    };
    assert!(jobs.site_stats.done());
    assert!(!jobs.all_page_titles_dump.done());
    assert!(!jobs.done());
    jobs.all_page_titles_dump = done(vec![("titles.gz", "//enwiki/titles.gz")]);
    assert!(jobs.done());
}

#[test]
fn paths_are_made_relative_and_files_listed() {
    let mut status = DumpStatus {
        date: None,
        jobs: JobsStatus {
            site_stats: done(vec![("stats.gz", "/enwiki/stats.gz")]),
            all_page_titles_dump: done(vec![("titles.gz", "///enwiki/titles.gz")]),
            articles_multistream_dump: done(vec![
                ("a.xml.bz2", "/enwiki/a.xml.bz2"),
                ("a-index.txt.bz2", "enwiki/a-index.txt.bz2"),
            ]),
        },
        version: "0.8".to_string(),
    };
    status.fix_paths();
    let all = status.jobs.all_files();
    let urls: Vec<&str> = all.iter().map(|(_, f)| f.url.as_str()).collect();
    assert_eq!(
        urls,
        vec!["enwiki/stats.gz", "enwiki/titles.gz", "enwiki/a.xml.bz2", "enwiki/a-index.txt.bz2"]
    );
    assert_eq!(all[2].0, "a.xml.bz2");
    assert_eq!(all[2].1.size, 10);
    assert_eq!(all[2].1.md5, "abc");
    assert_eq!(status.jobs.articles_multistream_dump.files().len(), 2);
    assert_eq!(JobStatus::Waiting.files().len(), 0);
    assert_eq!(trim_leading_slashes("//a/b/"), "a/b/");
    assert_eq!(trim_leading_slashes("///"), "");
    assert_eq!(trim_trailing_slashes("20240501//"), "20240501");
    assert_eq!(trim_trailing_slashes("/"), "");
    assert_eq!(file("x").copy().url, "x");
}

#[test]
fn dumps_are_tried_newest_first() {
    let names = vec![
        "20240301/".to_string(),
        "20240320/".to_string(),
        "20240401".to_string(),
        "latest/".to_string(),
    ];
    assert_eq!(candidates(&names), vec!["20240401", "20240320", "20240301"]);
    assert_eq!(candidates(&Vec::new()), Vec::<String>::new());
    assert_eq!(
        status_url("20240401"),
        "https://dumps.wikimedia.org/enwiki/20240401/dumpstatus.json"
    );
    assert_eq!(file_url("enwiki/a.bz2"), "https://dumps.wikimedia.org/enwiki/a.bz2");
}

#[test]
fn index_files_are_stored_as_text_and_not_checked() {
    let index = file("enwiki/x-multistream-index1.txt-p17p29.bz2");
    let plan = plan_download(&index);
    assert!(plan.is_index);
    assert!(!plan.check_md5);
    assert!(checksum_accepted(&plan, &index, "something else"));
    let data = file("enwiki/x-multistream1.xml-p17p29.bz2");
    let plan = plan_download(&data);
    assert!(!plan.is_index);
    assert!(plan.check_md5);
    assert!(checksum_accepted(&plan, &data, "abc"));
    assert!(!checksum_accepted(&plan, &data, "abd"));
}

#[test]
fn random_articles_are_accepted_or_drawn_again() {
    assert_eq!(ID_BOUND, 100_000_000);
    assert!(accept_random_article(Some("Apple"), false, true));
    assert!(!accept_random_article(Some("Apple"), true, true));
    assert!(!accept_random_article(Some("Category:Fruit"), false, true));
    assert!(accept_random_article(Some("Category:Fruit"), false, false));
    assert!(accept_random_article(Some("Odd:Fruit"), false, true));
    assert!(!accept_random_article(None, false, false));
}

#[test]
fn long_paths_are_reported_when_no_shorter_than_the_record() {
    assert_eq!(SAMPLERS, 16);
    let mut record = Record::new();
    assert!(record.offer(3));
    assert!(record.offer(3));
    assert!(!record.offer(2));
    assert!(record.offer(5));
    assert_eq!(record.longest, 5);
    assert!(reports_progress(0));
    assert!(reports_progress(300));
    assert!(!reports_progress(301));
}
