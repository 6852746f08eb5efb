use gif_to_ascii::probe::SizeError;
use gif_to_ascii::run::{Action, Failure, Job, Mode, Phase, Product, Progress, Reply};

fn strings(v: &[&str]) -> Vec<String> {
    v.iter().map(|s| s.to_string()).collect()
}

fn plain_job(keep: bool) -> Job {
    Job {
        mode: Mode::Plain { columns: 80 },
        input: "in.gif".to_string(),
        output: "out.gif".to_string(),
        working: "w".to_string(),
        frame_dir: "w/f".to_string(),
        art_dir: "w/a".to_string(),
        keep,
    }
}

fn describe(action: &Action) -> String {
    match action {
        Action::Run { program, args } => format!("run {} {}", program, args.join(" ")),
        Action::Query { program, args } => format!("query {} {}", program, args.join(" ")),
        Action::List { dir } => format!("list {}", dir),
        Action::Read { path } => format!("read {}", path),
        Action::Save { path } => format!("save {}", path),
        Action::Remove { path } => format!("remove {}", path),
        Action::RemoveAll { path } => format!("remove all {}", path),
        Action::Stop => "stop".to_string(),
    }
}

fn dump() -> Vec<u8> {
    b"header\n0,0: srgb(255,255,255)\n0,1: srgb(0,0,0)\n".to_vec()
}

fn answer(action: &Action, listings: &mut Vec<Vec<String>>) -> Reply {
    match action {
        Action::Run { .. } => Reply::Exit(true),
        Action::Query { args, .. } => {
            if args[1] == "-ping" {
                Reply::Output(false, b"640 480".to_vec())
            } else {
                Reply::Output(true, b"5\n10\n".to_vec())
            }
        }
        Action::List { .. } => Reply::Names(listings.remove(0)),
        Action::Read { .. } => Reply::Bytes(dump()),
        _ => Reply::Finished,
    }
}

#[test]
fn a_plain_conversion_from_start_to_end() {
    let job = plain_job(false);
    let mut listings = vec![
        strings(&["frame0002.png", "frame0001.png", "notes"]),
        strings(&["frame0001.ascii.txt", "frame0002.ascii.txt", "frame0001.png"]),
        strings(&["frame0002.png", "frame0001.png", "frame0003.png"]),
    ];
    let mut at = Progress::begin(&job);
    let mut log: Vec<String> = Vec::new();
    let mut texts: Vec<String> = Vec::new();
    while at.phase() != Phase::Done {
        let action = at.action(&job);
        log.push(describe(&action));
        if at.phase() == Phase::Save {
            match at.product() {
                Product::Text(text) => texts.push(text.clone()),
                _ => panic!("no text"),
            }
        }
        let reply = answer(&action, &mut listings);
        at = at.advance(&job, reply).ok().unwrap();
    }
    assert_eq!(describe(&at.action(&job)), "stop");
    assert_eq!(texts, strings(&["@\n \n", "@\n \n"]));
    assert_eq!((at.frame_count(), at.image_count()), (2, 3));
    assert_eq!(at.delays(), [5, 10]);
    let mut expected = strings(&[
        "run ffmpeg -i in.gif w/f/frame%04d.png",
        "query magick identify -format %T\n in.gif",
        "list w/f",
    ]);
    for n in ["0001", "0002"] {
        expected.push(format!("query magick identify -ping -format %w %h w/f/frame{}.png", n));
        expected.push(format!(
            "run magick w/f/frame{}.png -resize 80x30! w/f/frame{}-resized.png",
            n, n
        ));
        expected.push(format!("run magick w/f/frame{}-resized.png w/f/frame{}.txt", n, n));
        expected.push(format!("read w/f/frame{}.txt", n));
        expected.push(format!("save w/f/frame{}.ascii.txt", n));
        expected.push(format!("remove w/f/frame{}-resized.png", n));
        expected.push(format!("remove w/f/frame{}.txt", n));
    }
    expected.push("list w/f".to_string());
    for n in ["0001", "0002"] {
        expected.push(format!(
            "run magick -background white -fill black -font \
             /usr/share/fonts/liberation/LiberationMono-Regular.ttf -pointsize 12 \
             label:@w/f/frame{}.ascii.txt w/a/frame{}.png",
            n, n
        ));
    }
    expected.push("list w/a".to_string());
    expected.push(
        "run magick -loop 0 -delay 5 w/a/frame0001.png -delay 10 w/a/frame0002.png \
         -delay 7 w/a/frame0003.png out.gif"
            .to_string(),
    );
    expected.push("remove all w".to_string());
    assert_eq!(log, expected);
}

#[test]
fn kept_files_are_not_removed() {
    let job = plain_job(true);
    let mut listings = vec![strings(&[]), strings(&[]), strings(&[])];
    let mut at = Progress::begin(&job);
    let mut log: Vec<String> = Vec::new();
    while at.phase() != Phase::Done {
        let action = at.action(&job);
        log.push(describe(&action));
        let reply = answer(&action, &mut listings);
        at = at.advance(&job, reply).ok().unwrap();
    }
    assert_eq!(log.len(), 6);
    assert_eq!(log[5], "run magick -loop 0 out.gif");
}

/// Goes on until a stage is reached, with every action done well.
fn reach(job: &Job, phase: Phase) -> Progress {
    let mut listings = vec![
        strings(&["a.png"]),
        strings(&["a.ascii.txt"]),
        strings(&["a.png"]),
    ];
    let mut at = Progress::begin(job);
    while at.phase() != phase {
        let action = at.action(job);
        let reply = answer(&action, &mut listings);
        at = at.advance(job, reply).ok().unwrap();
    }
    at
}

fn fails(phase: Phase, reply: Reply) -> Option<Failure> {
    let job = plain_job(false);
    reach(&job, phase).advance(&job, reply).err()
}

#[test]
fn what_fails_ends_the_conversion() {
    let text = |ok: bool, s: &str| Reply::Output(ok, s.as_bytes().to_vec());
    assert_eq!(fails(Phase::Extract, Reply::Exit(false)), Some(Failure::Extract));
    assert_eq!(fails(Phase::Delays, text(false, "5\n")), Some(Failure::DelayReport));
    assert_eq!(fails(Phase::Delays, text(true, "x\n")), Some(Failure::NoFrames));
    assert_eq!(fails(Phase::Delays, text(true, "4294967295\n1\n")), Some(Failure::DelaySum));
    assert_eq!(
        fails(Phase::Measure, text(true, "640")),
        Some(Failure::Size(0, SizeError::MissingHeight))
    );
    assert_eq!(fails(Phase::Resize, Reply::Exit(false)), Some(Failure::Resize(0)));
    assert_eq!(fails(Phase::Dump, Reply::Exit(false)), Some(Failure::Dump(0)));
    assert_eq!(fails(Phase::Label, Reply::Exit(false)), Some(Failure::Label(0)));
    assert_eq!(fails(Phase::Assemble, Reply::Exit(false)), Some(Failure::Assemble));
}

#[test]
fn replies_to_something_else_are_refused() {
    assert_eq!(fails(Phase::Extract, Reply::Finished), Some(Failure::Unexpected));
    assert_eq!(fails(Phase::Read, Reply::Exit(true)), Some(Failure::Unexpected));
    assert_eq!(fails(Phase::Done, Reply::Finished), Some(Failure::Unexpected));
}

#[test]
fn a_plain_frame_without_pixels_is_an_empty_line() {
    let job = plain_job(false);
    let at = reach(&job, Phase::Read).advance(&job, Reply::Bytes(vec![])).ok().unwrap();
    match at.product() {
        Product::Text(text) => assert_eq!(text, "\n"),
        _ => panic!("no text"),
    }
}

#[test]
fn text_before_an_unreadable_line_is_saved_before_the_conversion_ends() {
    let job = plain_job(false);
    let bytes = b"\n0,0: srgb(255,255,255)\n\xff\n".to_vec();
    let at = reach(&job, Phase::Read).advance(&job, Reply::Bytes(bytes)).ok().unwrap();
    assert_eq!(describe(&at.action(&job)), "save w/f/a.ascii.txt");
    match at.product() {
        Product::Text(text) => assert_eq!(text, "@"),
        _ => panic!("no text"),
    }
    assert_eq!(at.advance(&job, Reply::Finished).err(), Some(Failure::Text(0)));
}
