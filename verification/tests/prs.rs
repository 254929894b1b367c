use llm_watch::config::ConfigError;
use llm_watch::prs::{add_pr, parse, prs_path, read_prs, remove_pr, PR_LIMIT};

#[test]
fn a_pull_request_link_is_canonicalized() {
    let pr = parse("https://github.com/canva/canva/pull/1234").unwrap();
    assert_eq!(pr.url, "https://github.com/canva/canva/pull/1234");
    assert_eq!((pr.repo.as_str(), pr.number), ("canva", 1234));

    // What you actually copy: a diff view, with a query and a fragment.
    assert_eq!(
        parse("https://github.com/canva/canva/pull/1234/files?diff=split#r99")
            .unwrap()
            .url,
        pr.url,
        "the same PR from any tab is one entry"
    );
    // An Enterprise host is kept; the shorthand assumes github.com.
    assert_eq!(
        parse("https://github.canva.dev/eng/tools/pull/7")
            .unwrap()
            .url,
        "https://github.canva.dev/eng/tools/pull/7"
    );
    assert_eq!(parse("canva/canva#1234").unwrap().url, pr.url);
    // http is accepted but stored as https.
    assert_eq!(
        parse("http://github.com/canva/canva/pull/1234")
            .unwrap()
            .url,
        pr.url
    );
}

#[test]
fn anything_that_is_not_a_pull_request_is_refused() {
    for input in [
        "",
        "not a url",
        "https://github.com/canva/canva",
        "https://github.com/canva/canva/issues/12",
        "https://github.com/canva/canva/pull/nope",
        "https://github.com/canva/canva/pull/0",
        "javascript:alert(1)//github.com/a/b/pull/1",
        // A crafted line must not be able to forge a second entry or a comment.
        "https://github.com/canva/can va/pull/1",
        "https://github.com/../x/pull/1",
    ] {
        assert!(parse(input).is_none(), "{input} should not parse");
    }
    assert!(parse(&format!("https://github.com/a/b/pull/{}", "1".repeat(400))).is_none());
}

#[test]
fn prs_round_trip_and_ignore_junk() {
    let content = "# heading\n\
         coder.dev2 = https://github.com/canva/canva/pull/1\n\
         coder.dev2 = https://github.com/canva/canva/pull/1/files\n\
         coder.dev2 = not-a-pr\n\
         broken line\n\
         coder.dev3 = https://github.com/canva/tools/pull/9\n\
         coder.dev4 = canva/tools#9\n";

    let prs = read_prs(content);
    assert_eq!(
        prs.get("coder.dev2").unwrap().len(),
        1,
        "the duplicate collapses"
    );
    assert_eq!(prs.get("coder.dev3").unwrap()[0].number, 9);
    // `#` opens a comment, so the shorthand is an input convenience only:
    // the file itself always holds canonical URLs.
    assert!(!prs.contains("coder.dev4"));

    let added = add_pr(content, "coder.dev2", &parse("canva/canva#2").unwrap())
        .ok()
        .unwrap();
    assert_eq!(added.list.len(), 2);
    let again = add_pr(
        &added.content,
        "coder.dev2",
        &parse("canva/canva#2").unwrap(),
    )
    .ok()
    .unwrap();
    assert_eq!(
        again.list.len(),
        2,
        "adding the same PR twice is a no-op"
    );

    let left = remove_pr(
        &again.content,
        "coder.dev2",
        &parse("canva/canva#1").unwrap(),
    )
    .ok()
    .unwrap();
    assert_eq!(left.list.len(), 1);
    assert_eq!(left.list[0].number, 2);
    let prs = read_prs(&left.content);
    assert_eq!(prs.get("coder.dev3").unwrap().len(), 1, "other hosts kept");

    // Emptying a host drops it from the file rather than leaving a stub.
    let emptied = remove_pr(
        &left.content,
        "coder.dev2",
        &parse("canva/canva#2").unwrap(),
    )
    .ok()
    .unwrap();
    assert!(!read_prs(&emptied.content).contains("coder.dev2"));
}

#[test]
fn a_host_cannot_collect_unbounded_pull_requests() {
    let mut content = String::new();
    for number in 1..=(PR_LIMIT + 3) {
        content = add_pr(
            &content,
            "coder.dev2",
            &parse(&format!("canva/canva#{number}")).unwrap(),
        )
        .ok()
        .unwrap()
        .content;
    }
    assert_eq!(
        read_prs(&content).get("coder.dev2").unwrap().len(),
        PR_LIMIT
    );
    let refused = add_pr("", "", &parse("a/b#1").unwrap());
    assert!(matches!(refused, Err(ConfigError::EmptyHost)));
}

#[test]
fn the_file_of_attachments_is_written_host_by_host() {
    let pr = parse("canva/tools#77").unwrap();
    let edit = add_pr(
        "coder.z = https://github.com/a/b/pull/1\n",
        " coder.dev3 ",
        &pr,
    )
    .ok()
    .unwrap();
    let lines = edit
        .content
        .lines()
        .filter(|line| !line.starts_with('#'))
        .collect::<Vec<_>>();
    assert_eq!(
        lines,
        vec![
            "coder.dev3 = https://github.com/canva/tools/pull/77",
            "coder.z = https://github.com/a/b/pull/1",
        ]
    );
    assert!(edit.content.starts_with('#'));
    assert_eq!(
        ConfigError::EmptyHost.message(),
        "host must not be empty"
    );
}

#[test]
fn attachments_lie_in_the_settings() {
    assert_eq!(prs_path("/home/u/.config/llm-watch"), "/home/u/.config/llm-watch/prs");
}

#[test]
fn a_pull_request_names_its_owner_and_repository() {
    let pr = parse("  https://github.example.dev/eng/tools/pull/7/commits  ").unwrap();
    assert_eq!(pr.url, "https://github.example.dev/eng/tools/pull/7");
    assert_eq!(pr.owner, "eng");
    assert_eq!(pr.repo, "tools");
    assert_eq!(pr.number, 7);
}

#[test]
fn a_canonical_link_reads_back() {
    for input in ["Canva-1/c_an.va#12", "HTTP://GitHub.com/a/b/pull/+7?x#y"] {
        let pr = parse(input).unwrap();
        assert_eq!(parse(&pr.url).unwrap(), pr);
    }
}

#[test]
fn detaching_what_was_just_attached_gives_back_the_rest() {
    let shown = |content: &str| {
        read_prs(content)
            .get("dev-a")
            .map(|list| list.iter().map(|pr| pr.number).collect::<Vec<_>>())
    };
    let pr = parse("a/b#9").unwrap();
    for before in [
        "dev-b = https://github.com/a/b/pull/9\n",
        "dev-a = https://github.com/a/b/pull/2\n\
         dev-b = https://github.com/a/b/pull/9\n\
         dev-a = https://github.com/a/b/pull/1\n",
    ] {
        let added = add_pr(before, "dev-a", &pr).unwrap().content;
        let after = remove_pr(&added, "dev-a", &pr).unwrap().content;
        assert_ne!(shown(&added), shown(before));
        assert_eq!(shown(&after), shown(before));
        assert_eq!(read_prs(&after).get("dev-b").unwrap(), &vec![pr.clone()]);
    }
}

#[test]
fn the_first_different_pull_requests_of_a_host_count() {
    let mut content = String::new();
    for number in [5, 3, 5, 9, 3, 1, 2, 4, 6, 7, 8, 5] {
        content.push_str(&format!("dev-a = https://github.com/a/b/pull/{number}\n"));
        content.push_str("dev-b = https://github.com/a/b/pull/100\n");
    }
    let all = read_prs(&content);
    let numbers = |host: &str| {
        let list = all.get(host).unwrap();
        list.iter().map(|pr| pr.number).collect::<Vec<_>>()
    };
    assert_eq!(numbers("dev-a"), vec![5, 3, 9, 1, 2, 4, 6, 7]);
    assert_eq!(numbers("dev-b"), vec![100]);
}
