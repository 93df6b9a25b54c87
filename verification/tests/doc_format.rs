use krpc_client::doc::{parse_doc, run_doc_events, tokenize};

#[test]
fn test_parse_doc() {
    let sample = "<doc>\n<summary>\nThis service provides functionality to interact with\n<a href=\"https://forum.kerbalspaceprogram.com/index.php?/topic/184787-infernal-robotics-next/\">Infernal Robotics</a>.\n</summary>\n</doc>";
    let parsed = parse_doc(sample);
    assert!(parsed.is_some());
}

#[test]
fn test_parse_params() {
    let sample = "<doc>\n<summary>\nConstruct a tuple.\n</summary>\n<returns>The tuple.</returns>\n<param name=\"elements\">The elements.</param>\n</doc>";
    let parsed = parse_doc(sample);
    assert!(parsed.is_some());
}

#[test]
fn test_parse_paramref_code() {
    let sample = "<doc>\n<summary>\nReturns the servo group in the given <paramref name=\"vessel\" /> with the given <paramref name=\"name\" />,\nor <c>null</c> if none exists. If multiple servo groups have the same name, only one of them is returned.\n</summary>\n<param name=\"vessel\">Vessel to check.</param>\n<param name=\"name\">Name of servo group to find.</param>\n</doc>";
    let parsed = parse_doc(sample);
    assert!(parsed.is_some());
}

#[test]
fn plain_summaries_render_their_text() {
    assert_eq!(parse_doc("<doc><summary>hi</summary></doc>").unwrap(), "hi");
}

#[test]
fn links_render_as_markdown() {
    assert_eq!(
        parse_doc("<doc><a href=\"http://x\">label</a></doc>").unwrap(),
        "[label](http://x)"
    );
}

#[test]
fn paramrefs_render_as_code() {
    assert_eq!(
        parse_doc("<doc><paramref name=\"vessel\" /></doc>").unwrap(),
        "`vessel`"
    );
}

#[test]
fn see_references_drop_member_marks() {
    assert_eq!(
        parse_doc("<doc><see cref=\"M:Foo.Bar\" /></doc>").unwrap(),
        "`Foo.Bar`"
    );
}

#[test]
fn sections_open_their_headings() {
    let rendered = parse_doc(
        "<doc><summary>s</summary><returns>The tuple.</returns><param name=\"x\">An x.</param></doc>",
    )
    .unwrap();
    assert!(rendered.contains("# Returns"));
    assert!(rendered.contains("# Parameters"));
    assert!(rendered.contains(" - `x`: An x."));
}

#[test]
fn entities_decode_in_text() {
    assert_eq!(
        parse_doc("<doc><summary>a &amp; b &lt;c&gt;</summary></doc>").unwrap(),
        "a & b <c>"
    );
}

#[test]
fn unknown_elements_fail() {
    assert!(parse_doc("<doc><mystery>x</mystery></doc>").is_none());
    assert!(parse_doc("<doc><summary>unclosed</summary>").is_none());
}

#[test]
fn parse_doc_runs_the_token_pipeline() {
    let sample = "<doc><summary>hi <c>there</c></summary></doc>";
    let toks = tokenize(sample).unwrap();
    assert_eq!(run_doc_events(&toks), parse_doc(sample));
    assert_eq!(parse_doc(sample).unwrap(), "hi `there`");
}
