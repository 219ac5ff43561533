use flac_chop_core::chain::{parse_metadata_chain, ChainError, MetaBlock};
use flac_chop_core::comment::{build_vorbis_comment, parse_vorbis_comment};
use flac_chop_core::replace::replace_all_updates;
use flac_chop_core::tags::{
    apply_tag_updates, cut_tag_source, cut_tag_updates, in_place_would_split_char, owned_tags,
    rewrite_cut_tags, rewrite_tags, splice_vorbis_comment, try_rewrite_cut_tags,
    update_vorbis_comment_in_place, verify_rewrite, CutTiming, TagError, TagUpdate, TagWrite,
};

const FRAME: [u8; 8] = [0xFF, 0xF8, 0xCC, 0x02, 0x00, 0x0A, 0x1D, 0x4A];

fn streaminfo() -> Vec<u8> {
    let packed: u64 = (10000u64 << 44) | (0u64 << 41) | (7u64 << 36) | 4096;
    let mut si = Vec::new();
    si.extend_from_slice(&4096u16.to_be_bytes());
    si.extend_from_slice(&4096u16.to_be_bytes());
    si.extend_from_slice(&[0xFF, 0xFF, 0xFF]);
    si.extend_from_slice(&[0xFF, 0xFF, 0xFF]);
    si.extend_from_slice(&packed.to_be_bytes());
    si.extend_from_slice(&[0u8; 16]);
    si
}

fn vc_payload(vendor: &str, comments: &[&str]) -> Vec<u8> {
    let cs: Vec<Vec<u8>> = comments.iter().map(|c| c.as_bytes().to_vec()).collect();
    build_vorbis_comment(vendor.as_bytes(), &cs)
}

fn header(kind: u8, len: usize) -> [u8; 4] {
    [kind, (len >> 16) as u8, (len >> 8) as u8, len as u8]
}

/// STREAMINFO, VORBIS_COMMENT (vendor "test"), 4-byte PADDING (last), one frame.
fn minimal_flac(comments: &[&str]) -> Vec<u8> {
    let mut f = b"fLaC".to_vec();
    f.extend_from_slice(&header(0x00, 34));
    f.extend_from_slice(&streaminfo());
    let vc = vc_payload("test", comments);
    f.extend_from_slice(&header(0x04, vc.len()));
    f.extend_from_slice(&vc);
    f.extend_from_slice(&[0x81, 0x00, 0x00, 0x04, 0, 0, 0, 0]);
    f.extend_from_slice(&FRAME);
    f
}

/// The layout a SoX cut leaves: STREAMINFO, VORBIS_COMMENT (last), frames.
fn sox_style_flac(vendor: &str, comments: &[&str]) -> Vec<u8> {
    let mut f = b"fLaC".to_vec();
    f.extend_from_slice(&header(0x00, 34));
    f.extend_from_slice(&streaminfo());
    let vc = vc_payload(vendor, comments);
    f.extend_from_slice(&header(0x84, vc.len()));
    f.extend_from_slice(&vc);
    f.extend_from_slice(&FRAME);
    f
}

fn upd(k: &str, v: &str) -> TagUpdate {
    TagUpdate { key: k.as_bytes().to_vec(), value: Some(v.as_bytes().to_vec()) }
}

fn apply(file: &[u8], w: TagWrite) -> Vec<u8> {
    match w {
        TagWrite::InPlace(ip) => {
            let mut out = file.to_vec();
            let off = ip.offset as usize;
            out[off..off + ip.region.len()].copy_from_slice(&ip.region);
            out
        }
        TagWrite::Splice(plan) => {
            let mut out = plan.metadata.clone();
            out.extend_from_slice(&file[plan.frames_start as usize..]);
            out
        }
    }
}

fn in_place(file: &[u8], updates: &[TagUpdate]) -> Option<Vec<u8>> {
    match update_vorbis_comment_in_place(file, file.len() as u64, updates).unwrap() {
        Some(w) => Some(apply(file, TagWrite::InPlace(w))),
        None => None,
    }
}

fn splice(file: &[u8], updates: &[TagUpdate]) -> Vec<u8> {
    let plan = splice_vorbis_comment(file, file.len() as u64, updates).unwrap();
    apply(file, TagWrite::Splice(plan))
}

fn blocks(file: &[u8]) -> (Vec<MetaBlock>, u64) {
    parse_metadata_chain(file).unwrap()
}

fn comments(file: &[u8]) -> Vec<String> {
    let (bs, _) = blocks(file);
    let vc = bs.iter().find(|b| b.kind == 4).unwrap();
    let (_, cs) = parse_vorbis_comment(&vc.payload).unwrap();
    cs.into_iter().map(|c| String::from_utf8(c).unwrap()).collect()
}

fn frames(file: &[u8]) -> Vec<u8> {
    let (_, fs) = blocks(file);
    file[fs as usize..].to_vec()
}

const STALE: [&str; 5] = [
    "DURATION_SECONDS=216.557080",
    "LENGTH=216557",
    "RF_TOTAL_SAMPLES=2165570800",
    "RF_SAMPLE_RATE=10000000",
    "RF_SAMPLE_RATE_KHZ=10000",
];

#[test]
fn splice_replaces_owned_tags_and_keeps_others() {
    let f = minimal_flac(&["PROJECT=demo", "RF_TOTAL_SAMPLES=999", "OPERATOR=harry"]);
    let g = splice(&f, &[upd("RF_TOTAL_SAMPLES", "12345"), upd("RF_SAMPLE_RATE", "10000000")]);
    let c = comments(&g);
    assert!(c.contains(&"PROJECT=demo".to_string()));
    assert!(c.contains(&"OPERATOR=harry".to_string()));
    assert!(c.contains(&"RF_TOTAL_SAMPLES=12345".to_string()));
    assert!(c.contains(&"RF_SAMPLE_RATE=10000000".to_string()));
    assert!(!c.contains(&"RF_TOTAL_SAMPLES=999".to_string()));
}

#[test]
fn splice_preserves_frames_byte_for_byte() {
    let f = minimal_flac(&["A=1"]);
    let before = frames(&f);
    let g = splice(&f, &[upd("LENGTH", "5000")]);
    assert_eq!(before, frames(&g));
}

#[test]
fn splice_inserts_vc_when_missing() {
    let mut f = b"fLaC".to_vec();
    let mut si = [0u8; 34];
    si[10..18].copy_from_slice(&((10000u64 << 44) | 4096).to_be_bytes());
    f.extend_from_slice(&[0x80, 0x00, 0x00, 34]);
    f.extend_from_slice(&si);
    f.extend_from_slice(&[0xFF, 0xF8, 0x00, 0x01]);
    let g = splice(&f, &[upd("RF_TOTAL_SAMPLES", "42")]);
    let (bs, _) = blocks(&g);
    assert_eq!(bs.len(), 3);
    assert_eq!(bs[0].kind, 0);
    assert_eq!(bs[1].kind, 4);
    assert_eq!(bs[2].kind, 1);
    assert_eq!(bs[2].payload.len(), 4096);
    assert!(comments(&g).contains(&"RF_TOTAL_SAMPLES=42".to_string()));
    let (vendor, _) = parse_vorbis_comment(&bs[1].payload).unwrap();
    assert_eq!(vendor, b"FLAC-Chop".to_vec());
}

#[test]
fn inplace_updates_sox_style_cut_without_temp_file() {
    let f = sox_style_flac("reference libFLAC 1.3.3 20190804", &STALE);
    let g = in_place(
        &f,
        &[
            upd("RF_SAMPLE_RATE_KHZ", "10000"),
            upd("RF_TOTAL_SAMPLES", "50000000000"),
            upd("RF_SAMPLE_RATE", "10000000"),
            upd("DURATION_SECONDS", "5000.000000"),
            upd("LENGTH", "5000000"),
        ],
    )
    .expect("sox-style cut must update in place");
    assert_eq!(g.len(), f.len(), "in-place update must not change the file size");
    assert_eq!(frames(&g), frames(&f), "frames must be untouched");
    let c = comments(&g);
    assert!(c.contains(&"RF_TOTAL_SAMPLES=50000000000".to_string()));
    assert!(c.contains(&"LENGTH=5000000".to_string()));
    assert!(!c.contains(&"RF_TOTAL_SAMPLES=2165570800".to_string()));
    // the growth was taken from the end of the vendor string
    let (bs, _) = blocks(&g);
    let (vendor, _) = parse_vorbis_comment(&bs[1].payload).unwrap();
    assert_eq!(vendor, b"reference libFLAC 1.3.3 20190".to_vec());
}

#[test]
fn inplace_grows_into_adjacent_padding() {
    let f = minimal_flac(&["RF_TOTAL_SAMPLES=999", "PROJECT=demo"]);
    let g = in_place(&f, &[upd("RF_TOTAL_SAMPLES", "123456789")]).expect("growth within padding must update in place");
    assert_eq!(g.len(), f.len());
    assert_eq!(frames(&g), frames(&f));
    let c = comments(&g);
    assert!(c.contains(&"RF_TOTAL_SAMPLES=123456789".to_string()));
    assert!(c.contains(&"PROJECT=demo".to_string()));
    let (bs, _) = blocks(&g);
    assert_eq!(bs[2].kind, 1);
    assert_eq!(bs[2].payload.len(), 0);
}

#[test]
fn inplace_shrink_inserts_padding_block() {
    let f = sox_style_flac("reference libFLAC 1.3.3 20190804", &STALE);
    let g = in_place(
        &f,
        &[
            upd("RF_SAMPLE_RATE_KHZ", "1"),
            upd("RF_TOTAL_SAMPLES", "1"),
            upd("RF_SAMPLE_RATE", "1"),
            upd("DURATION_SECONDS", "0.000000"),
            upd("LENGTH", "1"),
        ],
    )
    .expect("shrink with >=4 slack must update in place");
    assert_eq!(g.len(), f.len());
    assert_eq!(frames(&g), frames(&f));
    let (bs, _) = blocks(&g);
    assert_eq!(bs.len(), 3);
    assert_eq!(bs[2].kind, 1);
}

#[test]
fn inplace_declines_a_shrink_of_one_to_three_bytes() {
    let f = sox_style_flac("v", &["LENGTH=12345"]);
    assert!(in_place(&f, &[upd("LENGTH", "12")]).is_none());
    assert!(in_place(&f, &[upd("LENGTH", "12345")]).is_some());
}

#[test]
fn splice_fallback_leaves_misrc_padding() {
    let f = sox_style_flac("reference libFLAC 1.3.3 20190804", &STALE);
    let huge = "9".repeat(600);
    assert!(in_place(&f, &[upd("RF_TOTAL_SAMPLES", &huge)]).is_none(), "growth past vendor must fall back to the splice");
    let g = splice(&f, &[upd("RF_TOTAL_SAMPLES", &huge)]);
    let (bs, _) = blocks(&g);
    assert_eq!(bs[2].kind, 1, "MISRC-style padding must follow the VC");
    assert_eq!(bs[2].payload.len(), 4096);
    assert!(comments(&g).contains(&format!("RF_TOTAL_SAMPLES={huge}")));
    assert_eq!(frames(&g), frames(&f));
}

#[test]
fn splice_refuses_non_flac() {
    let d = b"not a flac file at all";
    assert!(matches!(
        splice_vorbis_comment(d, d.len() as u64, &[upd("A", "1")]),
        Err(TagError::Chain(ChainError::NotFlac))
    ));
}

#[test]
fn rewrites_refuse_files_without_frames() {
    let f = minimal_flac(&["A=1"]);
    let meta_only = &f[..f.len() - FRAME.len()];
    assert!(matches!(
        update_vorbis_comment_in_place(meta_only, meta_only.len() as u64, &[upd("A", "2")]),
        Err(TagError::NoFrames)
    ));
    assert!(matches!(
        splice_vorbis_comment(meta_only, 10, &[upd("A", "2")]),
        Err(TagError::FramesPastEnd)
    ));
}

#[test]
fn owned_tags_are_unique_and_sorted() {
    let mut s = owned_tags();
    s.sort();
    let mut d: Vec<&str> = s.clone();
    d.dedup();
    assert_eq!(s.len(), d.len(), "OWNED_TAGS has duplicates");
    assert!(s.contains(&"RF_TOTAL_SAMPLES"));
    assert!(s.contains(&"RF_SAMPLE_RATE"));
    assert!(s.contains(&"RF_SAMPLE_RATE_KHZ"));
    assert!(s.contains(&"DURATION_SECONDS"));
    assert!(s.contains(&"LENGTH"));
}

#[test]
fn read_streaminfo_non_flac_errors() {
    assert!(matches!(cut_tag_source(b""), Err(TagError::StreamInfo(_))));
    assert_eq!(cut_tag_source(&minimal_flac(&["A=1"])).unwrap(), (10000, 4096));
}

#[test]
fn updates_drop_every_stale_copy_and_append_in_order() {
    let cs: Vec<Vec<u8>> = vec![b"A=1".to_vec(), b"B=2".to_vec(), b"A=3".to_vec(), b"AB=4".to_vec()];
    let out = apply_tag_updates(&cs, &[upd("A", "9"), upd("C", "")]);
    assert_eq!(out, vec![b"B=2".to_vec(), b"AB=4".to_vec(), b"A=9".to_vec(), b"C=".to_vec()]);
}

fn kv(ups: &[TagUpdate]) -> Vec<(String, Option<String>)> {
    ups.iter()
        .map(|u| (String::from_utf8(u.key.clone()).unwrap(), u.value.clone().map(|v| String::from_utf8(v).unwrap())))
        .collect()
}

#[test]
fn cut_updates_follow_the_rf_convention() {
    let t = CutTiming { duration_text: b"0.409600".to_vec(), length_ms: 410 };
    let rf = cut_tag_updates(10000, 4096, true, &t);
    let expect: Vec<(String, Option<String>)> = vec![
        ("RF_SAMPLE_RATE_KHZ", "10000"),
        ("RF_TOTAL_SAMPLES", "4096000"),
        ("RF_SAMPLE_RATE", "10000000"),
        ("DURATION_SECONDS", "0.409600"),
        ("LENGTH", "410"),
    ]
    .into_iter()
    .map(|(a, b)| (a.to_string(), Some(b.to_string())))
    .collect();
    assert_eq!(kv(&rf), expect);
    let audio = cut_tag_updates(48000, 96000, false, &t);
    assert_eq!(audio.len(), 5);
    assert_eq!(kv(&audio)[0], ("RF_SAMPLE_RATE_KHZ".to_string(), None));
    assert_eq!(audio[1].value, Some(b"96000".to_vec()));
    assert_eq!(audio[2].value, Some(b"48000".to_vec()));
    let sat = cut_tag_updates(1, u64::MAX / 10, true, &t);
    assert_eq!(sat[1].value, Some(u64::MAX.to_string().into_bytes()));
}

#[test]
fn audio_cut_drops_a_stale_khz_tag() {
    let f = sox_style_flac("reference libFLAC 1.3.3 20190804", &["PROJECT=demo", "RF_SAMPLE_RATE_KHZ=32000", "LENGTH=1"]);
    let t = CutTiming { duration_text: b"0.409600".to_vec(), length_ms: 410 };
    let w = rewrite_cut_tags(&f, f.len() as u64, false, &t).unwrap();
    let g = apply(&f, w);
    let c = comments(&g);
    assert_eq!(
        c,
        vec![
            "PROJECT=demo".to_string(),
            "RF_TOTAL_SAMPLES=4096".to_string(),
            "RF_SAMPLE_RATE=10000".to_string(),
            "DURATION_SECONDS=0.409600".to_string(),
            "LENGTH=410".to_string(),
        ]
    );
}

#[test]
fn a_drop_only_update_removes_without_writing() {
    let cs: Vec<Vec<u8>> = vec![b"A=1".to_vec(), b"B=2".to_vec()];
    let drop = TagUpdate { key: b"A".to_vec(), value: None };
    assert_eq!(apply_tag_updates(&cs, &[drop]), vec![b"B=2".to_vec()]);
}

#[test]
fn cut_tags_rewrite_end_to_end_and_verify() {
    let f = sox_style_flac("reference libFLAC 1.3.3 20190804", &["PROJECT=demo", STALE[0], STALE[2]]);
    let t = CutTiming { duration_text: b"0.409600".to_vec(), length_ms: 410 };
    let w = rewrite_cut_tags(&f, f.len() as u64, true, &t).unwrap();
    let expect_len = match &w {
        TagWrite::InPlace(_) => f.len() as u64,
        TagWrite::Splice(p) => p.metadata.len() as u64 + (f.len() as u64 - p.frames_start),
    };
    let g = apply(&f, w);
    let (_, fs) = blocks(&g);
    assert!(verify_rewrite(&g, g.len() as u64, fs, expect_len).is_ok());
    let c = comments(&g);
    assert!(c.contains(&"PROJECT=demo".to_string()));
    assert!(c.contains(&"RF_TOTAL_SAMPLES=4096000".to_string()));
    assert!(c.contains(&"RF_SAMPLE_RATE=10000000".to_string()));
    assert!(c.contains(&"RF_SAMPLE_RATE_KHZ=10000".to_string()));
    assert!(c.contains(&"LENGTH=410".to_string()));
    assert!(!c.contains(&STALE[2].to_string()));
    assert_eq!(frames(&g), FRAME.to_vec());
}

#[test]
fn rewrite_tags_picks_in_place_then_splice() {
    let f = minimal_flac(&["A=1"]);
    assert!(matches!(rewrite_tags(&f, f.len() as u64, &[upd("A", "2")]), Ok(TagWrite::InPlace(_))));
    let big = "x".repeat(100);
    assert!(matches!(rewrite_tags(&f, f.len() as u64, &[upd("A", &big)]), Ok(TagWrite::Splice(_))));
}

#[test]
fn vendor_trim_that_would_split_a_character_is_reported() {
    let vendor = "é".repeat(10);
    let mut old: Vec<&str> = vec!["RF_SAMPLE_RATE_KHZ=10000", "RF_TOTAL_SAMPLES=4096000", "RF_SAMPLE_RATE=10000000", "DURATION_SECONDS=0.409600"];
    old.push("LENGTH=41");
    let f = sox_style_flac(&vendor, &old);
    let t = CutTiming { duration_text: b"0.409600".to_vec(), length_ms: 410 };
    let ups = cut_tag_updates(10000, 4096, true, &t);
    assert!(in_place_would_split_char(&f, f.len() as u64, &ups));
    assert!(try_rewrite_cut_tags(&f, f.len() as u64, true, &t).is_none());
    // two bytes of growth trim a whole character
    let old2: Vec<&str> = vec!["RF_SAMPLE_RATE_KHZ=10000", "RF_TOTAL_SAMPLES=4096000", "RF_SAMPLE_RATE=10000000", "DURATION_SECONDS=0.409600", "LENGTH=4"];
    let f2 = sox_style_flac(&vendor, &old2);
    assert!(!in_place_would_split_char(&f2, f2.len() as u64, &ups));
    let r = try_rewrite_cut_tags(&f2, f2.len() as u64, true, &t).unwrap().unwrap();
    assert!(matches!(r, TagWrite::InPlace(_)));
}

#[test]
fn a_rewritten_file_is_checked_before_it_is_kept() {
    let f = minimal_flac(&["A=1"]);
    let (_, fs) = blocks(&f);
    let n = f.len() as u64;
    assert!(verify_rewrite(&f, n, fs, n).is_ok());
    assert!(matches!(verify_rewrite(&f, n, fs + 1, n), Err(TagError::FramesMoved { found, expected }) if found == fs && expected == fs + 1));
    assert!(matches!(verify_rewrite(&f, n, fs, n + 1), Err(TagError::SizeChanged { .. })));
    let mut bad = f.clone();
    bad[fs as usize + 1] = 0x00;
    assert!(matches!(verify_rewrite(&bad, n, fs, n), Err(TagError::NoFrameSync { b0: 0xFF, b1: 0x00, .. })));
    let short = &f[..fs as usize + 1];
    assert!(matches!(verify_rewrite(short, n, fs, n), Err(TagError::SyncUnreadable)));
}

fn pairs(list: &[(&str, &str)]) -> Vec<(String, String)> {
    list.iter().map(|(k, v)| (k.to_string(), v.to_string())).collect()
}

fn bytes_of(list: &[&str]) -> Vec<Vec<u8>> {
    list.iter().map(|c| c.as_bytes().to_vec()).collect()
}

#[test]
fn replace_plan_drops_old_keys_then_writes_pairs_upper_cased() {
    let existing = bytes_of(&["PROJECT=demo", "OPERATOR=harry"]);
    let ups = replace_all_updates(&existing, &pairs(&[("project", "demo2"), ("Notes", "a=b")])).unwrap();
    assert_eq!(
        kv(&ups),
        vec![
            ("PROJECT".to_string(), None),
            ("OPERATOR".to_string(), None),
            ("PROJECT".to_string(), Some("demo2".to_string())),
            ("NOTES".to_string(), Some("a=b".to_string())),
        ]
    );
    let after: Vec<String> =
        apply_tag_updates(&existing, &ups).into_iter().map(|c| String::from_utf8(c).unwrap()).collect();
    assert_eq!(after, vec!["PROJECT=demo2".to_string(), "NOTES=a=b".to_string()]);
}

#[test]
fn replace_plan_with_no_pairs_clears_every_comment() {
    let existing = bytes_of(&["A=1", "B=2", "A=3"]);
    let ups = replace_all_updates(&existing, &[]).unwrap();
    assert!(apply_tag_updates(&existing, &ups).is_empty());
}

#[test]
fn replace_plan_reports_the_first_invalid_key() {
    let existing = bytes_of(&["A=1"]);
    assert_eq!(replace_all_updates(&existing, &pairs(&[("OK_1", "x"), ("BAD KEY", "y"), ("", "z")])).err(), Some(1));
    assert_eq!(replace_all_updates(&existing, &pairs(&[("", "z")])).err(), Some(0));
    assert_eq!(replace_all_updates(&existing, &pairs(&[("ÄB", "z")])).err(), Some(0));
}

#[test]
fn replace_plan_rewrites_a_file_and_keeps_the_vendor() {
    let file = minimal_flac(&["PROJECT=demo", "OPERATOR=harry"]);
    let (bs, _) = blocks(&file);
    let vc = bs.iter().find(|b| b.kind == 4).unwrap();
    let (_, existing) = parse_vorbis_comment(&vc.payload).unwrap();
    let ups = replace_all_updates(&existing, &pairs(&[("project", "demo2"), ("NOTES", "edited")])).unwrap();
    let w = rewrite_tags(&file, file.len() as u64, &ups).unwrap();
    let out = apply(&file, w);
    assert_eq!(comments(&out), vec!["PROJECT=demo2".to_string(), "NOTES=edited".to_string()]);
    let (bs2, _) = blocks(&out);
    let (vendor, _) = parse_vorbis_comment(&bs2.iter().find(|b| b.kind == 4).unwrap().payload).unwrap();
    assert_eq!(vendor, b"test".to_vec());
    assert_eq!(frames(&out), frames(&file));
}
