use libtqsm::language::slice_sentences;
use libtqsm::pattern::consecutive_newlines;
use libtqsm::{segment, try_segment, IncrementalSegmenter};

#[test]
fn test_basics() {
    let sents = segment("en", "This is Dr. Watson. Thanks for having me!").unwrap();
    println!("{}", sents.join("\n"));
    let sents = segment("en", "Roses Are Red. Violets Are Blue!").unwrap();
    println!("{}", sents.join("\n"));
    let sents = segment("ar", "هذا هو د. سالم. ماذا تقدمون للعشاء اليوم؟").unwrap();
    println!("{}", sents.join("\n"));
    let sents = segment(
        "ru", "Шухов как был в ватных брюках, не снятых на ночь (повыше левого колена их тоже был пришит затасканный, погрязневший лоскут, и на нем выведен черной, уже поблекшей краской номер Щ-854), надел телогрейку…"
    ).unwrap();
    println!("{}", sents.join("\n"));

    let sents = segment("en", "I work for the U.S. Government in Virginia.").unwrap();
    println!("{}", sents.join("\n"));
    assert_eq!(sents.len(), 1);

    let sents = segment("en", "He teaches science (He previously worked for 5 years as an engineer.) at the local University").unwrap();
    println!("{}", sents.join("\n"));
    assert_eq!(sents.len(), 1);

    let sents = segment("en", "Thus increasing the desire for political reform both in Lancashire and in the country at large.[7][8] This was a serious misdemeanour,[16] encouraging them to declare the assembly illegal as soon as it was announced on 31 July.[17][18] The radicals sought a second opinion on the meeting's legality.").unwrap();
    println!("{}", sents.join("\n"));
    assert_eq!(sents.len(), 3);
}

#[test]
fn test_fr() {
    let sents = segment("fr", "Après avoir été l'un des acteurs du projet génome humain, le Genoscope met aujourd'hui le cap vers la génomique environnementale. L'exploitation des données de séquences, prolongée par l'identification expérimentale des fonctions biologiques, notamment dans le domaine de la biocatalyse, ouvrent des perspectives de développements en biotechnologie industrielle.").unwrap();
    assert_eq!(sents.len(), 2);
}

#[test]
fn test_it_can_find_zh() {
    let sents = segment("zh", "安永已聯繫周怡安親屬，協助辦理簽證相關事宜，周怡安家屬1月1日晚間搭乘東方航空班機抵達上海，他們步入入境大廳時 神情落寞、不發一語。周怡安來自台中，去年剛從元智大學畢業，同年9月加入安永。").unwrap();
    assert_eq!(sents.len(), 2);
}

#[test]
fn test_regex_split_inclusive() {
    let single_line: Vec<&str> =
        consecutive_newlines().split_inclusive("This is just a single sentence");
    assert!(!single_line.is_empty());
    assert!(!single_line[0].is_empty());
    let two_lines_no_split: Vec<&str> =
        consecutive_newlines().split_inclusive("First line\nSecond line\n");
    assert_eq!(two_lines_no_split.len(), 1);
    let two_lines_with_split: Vec<&str> =
        consecutive_newlines().split_inclusive("First line\n\nSecond line");
    assert_eq!(two_lines_with_split.len(), 3);
}

#[test]
fn test_incremental_segmentor() {
    let mut inc_seg = IncrementalSegmenter::new("en").unwrap();
    let feed1 = inc_seg.accept_text("Hello");
    assert!(feed1.is_none());
    let feed2 = inc_seg.accept_text("there. This is");
    assert!(feed2.is_some());
    let partial_t = inc_seg.get_partial();
    assert_eq!(partial_t.trim(), "This is");
}

#[test]
fn sentences_are_these() {
    assert_eq!(
        segment("en", "This is Dr. Watson. Thanks for having me!").unwrap(),
        vec!["This is Dr. Watson.", "Thanks for having me!"]
    );
    assert_eq!(
        segment("en", "Roses Are Red. Violets Are Blue!").unwrap(),
        vec!["Roses Are Red.", "Violets Are Blue!"]
    );
    assert_eq!(
        segment("ar", "هذا هو د. سالم. ماذا تقدمون للعشاء اليوم؟").unwrap(),
        vec!["هذا هو د. سالم.", "ماذا تقدمون للعشاء اليوم؟"]
    );
    assert_eq!(segment("en", "").unwrap(), Vec::<String>::new());
}

#[test]
fn a_reference_belongs_to_the_sentence_before_it() {
    assert_eq!(
        segment("en", "At large.[7][8] This was. Not now.").unwrap(),
        vec!["At large.[7][8]", "This was.", "Not now."]
    );
    // Without a full stop in front of it a reference is nothing special.
    assert_eq!(segment("en", "At large[7] This was.").unwrap().len(), 1);
}

#[test]
fn lower_case_and_digits_go_on() {
    assert_eq!(
        segment("en", "Version 2.0 of it.and so on. Then. and now").unwrap(),
        vec!["Version 2.0 of it.and so on.", "Then.", "and now"]
    );
}

#[test]
fn quotations_emails_and_brackets_stay_whole() {
    assert_eq!(segment("en", "He said \"Stop. Now. Go\" and left. She stayed.").unwrap().len(), 2);
    assert_eq!(segment("en", "Mail a.B@example.com now. Thanks.").unwrap().len(), 2);
    assert_eq!(segment("en", "One (Two. Three) four. Five.").unwrap().len(), 2);
}

#[test]
fn names_with_an_exclamation_mark_go_on() {
    assert_eq!(segment("en", "He works at Yahoo! Finance today. Yes.").unwrap().len(), 2);
    assert_eq!(segment("en", "He works at Hooray! Finance today. Yes.").unwrap().len(), 3);
}

#[test]
fn spaces_around_sentences_go_away() {
    assert_eq!(
        segment("en", "  One.   Two.  ").unwrap(),
        vec!["One.", "Two.", ""]
    );
}

#[test]
fn a_text_without_terminators_is_one_sentence() {
    assert_eq!(segment("en", " no end\nin sight ").unwrap(), vec!["no end\nin sight"]);
}

#[test]
fn paragraphs_end_sentences() {
    assert_eq!(
        segment("en", "No end\n\nA new start").unwrap(),
        vec!["No end", "\n\n", "A new start"]
    );
    assert_eq!(segment("en", "\n\nA start").unwrap(), vec!["\n\n", "A start"]);
}

#[test]
fn paragraphs_are_segmented_on_their_own() {
    let (a, lines, b) = ("One. Two\nthree! Four", "\n\n\n", "Five? Six.");
    let mut expected = segment("en", a).unwrap();
    expected.push(lines.to_string());
    expected.extend(segment("en", b).unwrap());
    assert_eq!(expected.len(), 6);
    assert_eq!(segment("en", &format!("{}{}{}", a, lines, b)).unwrap(), expected);
}

#[test]
fn one_complete_sentence_is_cut_off_cleanly() {
    let mut segmenter = IncrementalSegmenter::new("en").unwrap();
    let text = "Une é. Rest";
    let complete = segmenter.accept_text(text).unwrap();
    assert_eq!(complete, "Une é.");
    assert_eq!(complete + &segmenter.get_partial(), text);
}

#[test]
fn nothing_but_spaces_is_lost() {
    let text = "One. Two!  Three (a. B.) four?[1] Five\n\nSix. Seven";
    let sentences = segment("en", text).unwrap();
    assert_eq!(sentences.concat().replace(' ', ""), text.replace(' ', ""));
}

#[test]
fn a_second_separator_shifts_the_cuts() {
    let text = "a\n\nbbbbbbbbbbbbbbb\n\ncccccccccccc";
    let pieces = consecutive_newlines().split_inclusive(text);
    assert_eq!(pieces, vec!["a", "bbbbbbbbbbbbbbb\n\nc", "\n\n", "ccccccccc"]);
    assert_eq!(pieces.concat().len() + 2, text.len());
    assert!(consecutive_newlines().try_split_inclusive("a\n\nb\n\nc").is_none());
    assert!(try_segment("en", "a\n\nb\n\nc").unwrap().is_none());
}

#[test]
fn boundaries_out_of_order_are_refused() {
    assert!(try_segment("en", "A.[1].\u{301} B").unwrap().is_none());
    assert_eq!(
        try_segment("en", "A.[1]. B").unwrap().unwrap(),
        vec!["A.[1].", "B"]
    );
}

#[test]
fn a_terminator_inside_a_cluster_is_refused() {
    // The last character joins the picture before it into one cluster.
    assert!(try_segment("en", "Oh 😀\u{200d}‼ Yes").unwrap().is_none());
    assert_eq!(try_segment("en", "Oh 😀‼ Yes").unwrap().unwrap().len(), 2);
}

#[test]
fn slices_between_boundaries() {
    assert_eq!(slice_sentences("ab cd e", &vec![0, 3, 3, 6]), vec!["ab", "cd", "e"]);
}
