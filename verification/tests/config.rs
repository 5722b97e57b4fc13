use huffman::config::{Config, Mode};

fn args(list: &[&str]) -> Vec<String> {
    list.iter().map(|s| s.to_string()).collect()
}

#[test]
fn too_few_arguments() {
    let r = Config::new(args(&["prog", "compress"]));
    assert_eq!(
        r.err(),
        Some("you must specify the mode and the input file.")
    );
    assert!(Config::new(Vec::new()).is_err());
}

#[test]
fn unknown_mode() {
    let r = Config::new(args(&["prog", "shrink", "in.txt"]));
    assert_eq!(
        r.err(),
        Some("the first argument allows only two options: \"compress\" or \"decompress\".")
    );
}

#[test]
fn compress_with_default_output() {
    let c = Config::new(args(&["prog", "compress", "in.txt"])).unwrap();
    assert_eq!(c.rootdir, "prog");
    assert_eq!(c.mode, Mode::Compress);
    assert_eq!(c.inpfname, "in.txt");
    assert_eq!(c.outfname, "out.txt");
}

#[test]
fn decompress_with_given_output() {
    let c = Config::new(args(&["prog", "decompress", "in.huf", "plain.txt", "more"])).unwrap();
    assert_eq!(c.mode, Mode::Decompress);
    assert_eq!(c.inpfname, "in.huf");
    assert_eq!(c.outfname, "plain.txt");
}
