use vosk_rust::components::{
    named_f32, named_i32, named_mat, named_vec, parse_components, Comp, LoadError, EPSILON,
};
use vosk_rust::descriptor::{parse_desc, tokenize, Desc};
use vosk_rust::graph::{input_dim, ivector_dim, parse_graph, parse_nodes, Node};
use vosk_rust::kaldi_io::ReadError;
use vosk_rust::mat::{EvalError, Mat};
use vosk_rust::nnet3::Nnet3;
use vosk_rust::single::{Arith, ONE};

struct Native;

impl Arith for Native {
    fn add(a: u32, b: u32) -> u32 {
        (f32::from_bits(a) + f32::from_bits(b)).to_bits()
    }
    fn sub(a: u32, b: u32) -> u32 {
        (f32::from_bits(a) - f32::from_bits(b)).to_bits()
    }
    fn mul(a: u32, b: u32) -> u32 {
        (f32::from_bits(a) * f32::from_bits(b)).to_bits()
    }
    fn div(a: u32, b: u32) -> u32 {
        (f32::from_bits(a) / f32::from_bits(b)).to_bits()
    }
    fn pow(a: u32, b: u32) -> u32 {
        f32::from_bits(a).powf(f32::from_bits(b)).to_bits()
    }
    fn sqrt(a: u32) -> u32 {
        f32::from_bits(a).sqrt().to_bits()
    }
    fn ln(a: u32) -> u32 {
        f32::from_bits(a).ln().to_bits()
    }
    fn sin(a: u32) -> u32 {
        f32::from_bits(a).sin().to_bits()
    }
    fn cos(a: u32) -> u32 {
        f32::from_bits(a).cos().to_bits()
    }
    fn round(a: u32) -> u32 {
        f32::from_bits(a).round().to_bits()
    }
    fn to_usize(a: u32) -> usize {
        f32::from_bits(a) as usize
    }
    fn from_usize(n: usize) -> u32 {
        (n as f32).to_bits()
    }
    fn parse(text: &str) -> Option<u32> {
        text.parse::<f32>().ok().map(f32::to_bits)
    }
    fn gemm(rows: usize, ins: usize, outs: usize, x: &Vec<u32>, w: &Vec<u32>) -> Vec<u32> {
        let mut y = vec![0u32; rows * outs];
        for t in 0..rows {
            for o in 0..outs {
                let mut s = 0.0f32;
                for k in 0..ins {
                    s += f32::from_bits(x[t * ins + k]) * f32::from_bits(w[o * ins + k]);
                }
                y[t * outs + o] = s.to_bits();
            }
        }
        y
    }
    fn fft(x: &Vec<(u32, u32)>) -> Vec<(u32, u32)> {
        x.clone()
    }
}

fn cs(s: &str) -> Vec<char> {
    s.chars().collect()
}

fn sized(v: i32) -> Vec<u8> {
    let mut out = vec![4u8];
    out.extend(v.to_le_bytes());
    out
}

fn fm(r: i32, c: i32, d: &[f32]) -> Vec<u8> {
    let mut out = b"FM ".to_vec();
    out.extend(sized(r));
    out.extend(sized(c));
    out.extend(d.iter().flat_map(|v| v.to_le_bytes()));
    out
}

fn fv(d: &[f32]) -> Vec<u8> {
    let mut out = b"FV ".to_vec();
    out.extend(sized(d.len() as i32));
    out.extend(d.iter().flat_map(|v| v.to_le_bytes()));
    out
}

fn sized_f(v: f32) -> Vec<u8> {
    let mut out = vec![4u8];
    out.extend(v.to_le_bytes());
    out
}

fn component(name: &str, kind: &str, items: &[(&str, Vec<u8>)]) -> Vec<u8> {
    let mut out = format!("<ComponentName> {name} {kind} ").into_bytes();
    for (tag, bytes) in items {
        out.extend(format!("{tag} ").into_bytes());
        out.extend(bytes);
    }
    out
}

fn offsets(vs: &[i32]) -> Vec<u8> {
    let mut out = sized(vs.len() as i32);
    for v in vs {
        out.extend(v.to_le_bytes());
    }
    out
}

fn model(graph: &str, components: &[Vec<u8>]) -> Vec<u8> {
    let mut out = b"\0B<Nnet3> \n".to_vec();
    out.extend(graph.as_bytes());
    out.extend(b"\n<NumComponents> ");
    out.extend(sized(components.len() as i32));
    for c in components {
        out.extend(c);
    }
    out.extend(b"</Nnet3> ");
    out
}

fn bits(d: &[f32]) -> Vec<u32> {
    d.iter().map(|v| v.to_bits()).collect()
}

fn mat(r: usize, c: usize, d: &[f32]) -> Mat {
    Mat { r, c, d: bits(d) }
}

fn nums(m: &Mat) -> Vec<f32> {
    m.d.iter().map(|v| f32::from_bits(*v)).collect()
}

fn forward(bytes: &[u8], feats: Mat, ivector: Mat) -> Result<Mat, EvalError> {
    Nnet3::load::<Native>(bytes).unwrap().forward::<Native>(feats, ivector)
}

fn show(d: &Desc) -> String {
    match d {
        Desc::Ref(n) => n.clone(),
        Desc::Offset(a, n) => format!("Offset({}, {n})", show(a)),
        Desc::Scale(f, a) => format!("Scale({}, {})", f32::from_bits(*f), show(a)),
        Desc::Sum(a, b) => format!("Sum({}, {})", show(a), show(b)),
        Desc::Append(ps) => {
            format!("Append({})", ps.iter().map(show).collect::<Vec<_>>().join(", "))
        }
        Desc::ReplaceIndex(a) => format!("ReplaceIndex({}, t, 0)", show(a)),
    }
}

#[test]
fn tokens_of_a_descriptor() {
    assert_eq!(
        tokenize(&cs(" Append(Offset( input , -1), a b)")),
        vec!["Append", "(", "Offset", "(", "input", ",", "-1", ")", ",", "a b", ")"]
    );
    assert_eq!(tokenize(&cs("  ")), Vec::<String>::new());
}

#[test]
fn descriptors_read_back() {
    for s in [
        "input",
        "Offset(input, -3)",
        "Scale(0.75, tdnn1)",
        "Sum(Scale(0.66, a), b)",
        "Append(Offset(input, -1), input, ReplaceIndex(ivector, t, 0))",
        "Append(a)",
        "Offset",
    ] {
        assert_eq!(show(&parse_desc::<Native>(&cs(s)).unwrap()), s);
    }
    // The condition is dropped, and so is what stands behind the expression.
    assert_eq!(show(&parse_desc::<Native>(&cs("IfDefined(Offset(a, 2)) rest")).unwrap()), "Offset(a, 2)");
    assert_eq!(show(&parse_desc::<Native>(&cs("Sum(a, b, c), d")).unwrap()), "Sum(a, b)");
}

#[test]
fn descriptors_that_are_none() {
    for s in [
        "", "Offset(", "Offset(a", "Offset(a)", "Scale(0.5)", "Scale(Sum(a, b), c)", "Sum(a)",
        "Round(a, 3)", "Append(a b", "Append(a,",
    ] {
        assert!(matches!(parse_desc::<Native>(&cs(s)), Err(LoadError::BadDescriptor)), "{s}");
    }
    for s in ["Offset(a, x)", "Scale(abc, x)", "Sum(a, b, Scale(y, c))", "Scale(IfDefined(z), c)"] {
        assert!(matches!(parse_desc::<Native>(&cs(s)), Err(LoadError::BadNumber)), "{s}");
    }
    assert!(matches!(
        parse_desc::<Native>(&cs("Scale(IfDefined(0.5), c)")),
        Ok(Desc::Scale(f, _)) if f == 0.5f32.to_bits()
    ));
    assert!(matches!(
        parse_desc::<Native>(&cs("Offset(a, Sum(b, c))")),
        Err(LoadError::BadDescriptor)
    ));
}

#[test]
fn nodes_of_a_graph() {
    let t = parse_nodes::<Native>(
        "\n  input-node name=input dim=3\n\
         dim-range-node name=part input-node=input dim-offset=1 dim=2\r\n\
         component-node name=c1.affine component=c1 input=Append(input, part)\n\
         output-node name=output input=c1.affine objective=linear\n# rest\n",
    )
    .unwrap();
    assert_eq!(t.len(), 4);
    assert!(matches!(t.get(&"input".to_string()), Some(Node::Input)));
    match t.get(&"part".to_string()) {
        Some(Node::DimRange { src, off, dim }) => {
            assert_eq!((src.as_str(), *off, *dim), ("input", 1, 2));
        }
        _ => panic!("part"),
    }
    match t.get(&"c1.affine".to_string()) {
        Some(Node::Component { comp, desc }) => {
            assert_eq!(comp, "c1");
            assert_eq!(show(desc), "Append(input, part)");
        }
        _ => panic!("c1"),
    }
    match t.get(&"output".to_string()) {
        Some(Node::Output { desc }) => assert_eq!(show(desc), "c1.affine"),
        _ => panic!("output"),
    }
}

#[test]
fn graphs_that_lack_something() {
    for s in [
        "input-node dim=3",
        "input-node name=",
        "dim-range-node name=a dim-offset=1 dim=2",
        "dim-range-node name=a input-node=b dim=2",
        "component-node name=a input=b",
        "component-node name=a component=b",
        "output-node name=output",
    ] {
        assert!(matches!(parse_nodes::<Native>(s), Err(LoadError::MissingValue)), "{s}");
    }
    assert!(matches!(
        parse_nodes::<Native>("dim-range-node name=a input-node=b dim-offset=x dim=2"),
        Err(LoadError::BadNumber)
    ));
    assert!(matches!(
        parse_nodes::<Native>("output-node name=o input=Scale(x, a)"),
        Err(LoadError::BadNumber)
    ));
    assert!(matches!(parse_graph::<Native>(b"<Nnet3> "), Err(LoadError::NoGraph)));
    assert!(matches!(
        parse_graph::<Native>(b"<NumComponents> <Nnet3> "),
        Err(LoadError::NoGraph)
    ));
}

#[test]
fn columns_of_an_input() {
    let text = "input-node name=ivector dim=30\n input-node name=input dim=40\n\
                input-node name=ivector dim=x\ncomponent-node name=ivector dim=9\n";
    assert_eq!(input_dim(text, "ivector"), 30);
    assert_eq!(input_dim(text, "input"), 40);
    assert_eq!(input_dim(text, "other"), 0);
    let bytes = b"<Nnet3> \ninput-node name=ivector dim=30\n<NumComponents> ";
    assert_eq!(ivector_dim(bytes), 30);
    assert_eq!(Nnet3::load::<Native>(bytes).unwrap().ivector_dim(), 30);
    assert_eq!(ivector_dim(b"input-node name=ivector dim=30\n"), 0);
}

#[test]
fn bytes_that_are_no_text_do_not_hide_nodes() {
    let mut bytes = b"<Nnet3> \n\xff\xfe\ninput-node name=in\xc3\xa9 dim=1\n".to_vec();
    bytes.extend(b"<NumComponents> ");
    let t = parse_graph::<Native>(&bytes).unwrap();
    assert!(t.get(&"in\u{e9}".to_string()).is_some());
}

#[test]
fn components_of_two_files_put_together() {
    let one = |v: f32| ("<Params>", fm(1, 1, &[v]));
    let mut first = b"front ".to_vec();
    first.extend(component("a", "<LinearComponent>", &[one(1.0)]));
    first.extend(component("b", "<LinearComponent>", &[one(2.0)]));
    let mut second = component("b", "<LinearComponent>", &[one(3.0)]);
    second.extend(component("c", "<RectifiedLinearComponent>", &[]));
    let mut both = first.clone();
    both.extend(&second);
    let t = parse_components(&both).unwrap();
    assert_eq!(t.len(), 3);
    let weight = |n: &str| match t.get(&n.to_string()) {
        Some(Comp::Linear { w }) => f32::from_bits(w.d[0]),
        _ => panic!("{n}"),
    };
    assert_eq!((weight("a"), weight("b")), (1.0, 3.0));
    assert!(matches!(t.get(&"c".to_string()), Some(Comp::Relu)));
}

#[test]
fn items_behind_their_tags() {
    let mut buf = b"xx<A> ".to_vec();
    buf.extend(sized(7));
    buf.extend(b"<B> ");
    buf.extend(fv(&[1.0, 2.0]));
    buf.extend(b"<C> ");
    buf.extend(fm(1, 2, &[3.0, 4.0]));
    buf.extend(b"<D> ");
    buf.extend(sized_f(0.5));
    let n = buf.len();
    assert_eq!(named_i32(&buf, 0, n, b"<A> "), Ok(Some(7)));
    assert_eq!(named_i32(&buf, 3, n, b"<A> "), Ok(None));
    assert_eq!(named_i32(&buf, 0, n, b"<B> "), Err(ReadError::IntSize));
    assert_eq!(named_vec(&buf, 0, n, b"<B> "), Ok(Some(bits(&[1.0, 2.0]))));
    assert_eq!(named_mat(&buf, 0, n, b"<C> ").unwrap().unwrap().d, bits(&[3.0, 4.0]));
    assert_eq!(named_f32(&buf, 0, n, b"<D> "), Ok(Some(0.5f32.to_bits())));
    assert_eq!(named_f32(&buf, 0, n, b"<E> "), Ok(None));
}

#[test]
fn components_of_every_kind() {
    let mut buf: Vec<u8> = vec![];
    buf.extend(component(
        "a",
        "<NaturalGradientAffineComponent>",
        &[("<LinearParams>", fm(1, 2, &[1.0, 2.0])), ("<BiasParams>", fv(&[3.0]))],
    ));
    buf.extend(component(
        "b",
        "<FixedAffineComponent>",
        &[("<LinearParams>", fm(1, 1, &[1.0]))],
    ));
    buf.extend(component("c", "<LinearComponent>", &[("<Params>", fm(1, 1, &[5.0]))]));
    buf.extend(component(
        "d",
        "<TdnnComponent>",
        &[
            ("<TimeOffsets>", offsets(&[-1, 0, 1])),
            ("<LinearParams>", fm(1, 3, &[1.0, 2.0, 3.0])),
            ("<BiasParams>", fv(&[])),
        ],
    ));
    buf.extend(component(
        "e",
        "<BatchNormComponent>",
        &[("<StatsMean>", fv(&[1.0])), ("<StatsVar>", fv(&[4.0]))],
    ));
    buf.extend(component(
        "f",
        "<BatchNormComponent>",
        &[
            ("<Epsilon>", sized_f(0.25)),
            ("<TargetRms>", sized_f(2.0)),
            ("<StatsMean>", fv(&[1.0])),
            ("<StatsVar>", fv(&[4.0])),
        ],
    ));
    buf.extend(component("g", "<RectifiedLinearComponent>", &[]));
    buf.extend(component("h", "<GeneralDropoutComponent>", &[]));
    buf.extend(component("h", "<NoOpComponent>", &[]));
    let t = parse_components(&buf).unwrap();
    assert_eq!(t.len(), 8);
    let get = |n: &str| t.get(&n.to_string()).unwrap();
    match get("a") {
        Comp::Affine { w, b } => {
            assert_eq!((w.r, w.c), (1, 2));
            assert_eq!(*b, bits(&[3.0]));
        }
        _ => panic!("a"),
    }
    assert!(matches!(get("b"), Comp::Affine { b, .. } if b.is_empty()));
    assert!(matches!(get("c"), Comp::Linear { w } if w.d == bits(&[5.0])));
    assert!(matches!(get("d"), Comp::Tdnn { offsets, .. } if *offsets == vec![-1, 0, 1]));
    assert!(matches!(
        get("e"),
        Comp::BatchNorm { eps, trms, .. } if *eps == EPSILON && *trms == ONE
    ));
    assert_eq!(EPSILON, 1e-3f32.to_bits());
    assert!(matches!(
        get("f"),
        Comp::BatchNorm { eps, trms, .. }
            if *eps == 0.25f32.to_bits() && *trms == 2.0f32.to_bits()
    ));
    assert!(matches!(get("g"), Comp::Relu));
    assert!(matches!(get("h"), Comp::Identity));
}

#[test]
fn components_that_lack_something() {
    let bare = component("c", "<LinearComponent>", &[]);
    assert!(matches!(parse_components(&bare), Err(LoadError::MissingItem)));
    // An item behind the next tag does not count.
    let mut two = component("c", "<TdnnComponent>", &[]);
    two.extend(component("d", "<NoOpComponent>", &[("<TimeOffsets>", offsets(&[0]))]));
    assert!(matches!(parse_components(&two), Err(LoadError::MissingItem)));
    let mean = component("c", "<BatchNormComponent>", &[("<StatsMean>", fv(&[1.0]))]);
    assert!(matches!(parse_components(&mean), Err(LoadError::MissingItem)));
    let cut = component("c", "<LinearComponent>", &[("<Params>", b"FM ".to_vec())]);
    assert!(matches!(
        parse_components(&cut),
        Err(LoadError::Read(ReadError::UnexpectedEof))
    ));
    assert!(matches!(
        parse_components(b"<ComponentName> x"),
        Err(LoadError::Read(ReadError::UnexpectedEof))
    ));
    assert_eq!(parse_components(b"nothing").unwrap().len(), 0);
}

fn example() -> Vec<u8> {
    model(
        "input-node name=ivector dim=1\n\
         input-node name=input dim=2\n\
         dim-range-node name=second input-node=input dim-offset=1 dim=1\n\
         component-node name=lda component=lda input=Append(Offset(input, -1), second, \
         ReplaceIndex(ivector, t, 0))\n\
         component-node name=act component=relu input=Sum(lda, Scale(2.0, lda))\n\
         component-node name=xent component=gone input=nowhere\n\
         output-node name=output input=act objective=linear\n\
         output-node name=output-xent input=xent objective=linear",
        &[
            component(
                "lda",
                "<FixedAffineComponent>",
                &[
                    (
                        "<LinearParams>",
                        fm(2, 4, &[1.0, 0.0, 0.0, 0.0, 0.0, 0.0, 1.0, 1.0]),
                    ),
                    ("<BiasParams>", fv(&[0.0, -1.0])),
                ],
            ),
            component("relu", "<RectifiedLinearComponent>", &[]),
        ],
    )
}

#[test]
fn forward_pass_on_a_small_network() {
    let feats = mat(4, 2, &[1.0, 10.0, 2.0, 20.0, 3.0, 30.0, -4.0, -40.0]);
    let ivector = mat(4, 1, &[5.0, 0.0, 0.0, 0.0]);
    let y = forward(&example(), feats, ivector).unwrap();
    // Rows 0 and 3: the first feature of the row before, and the second feature plus 5 less 1,
    // three times each, with nothing below zero.
    assert_eq!((y.r, y.c), (2, 2));
    assert_eq!(nums(&y), vec![3.0, 42.0, 9.0, 0.0]);
}

#[test]
fn forward_pass_is_the_same_each_time() {
    let feats = || mat(2, 2, &[0.1, 0.2, 0.3, 0.4]);
    let iv = || mat(2, 1, &[0.5, 0.5]);
    let net = Nnet3::load::<Native>(&example()).unwrap();
    let a = net.forward::<Native>(feats(), iv()).unwrap();
    let b = net.forward::<Native>(feats(), iv()).unwrap();
    assert_eq!(a.d, b.d);
}

#[test]
fn time_delay_and_normalising_layers() {
    let bytes = model(
        "input-node name=input dim=1\n\
         component-node name=t component=tdnn input=input\n\
         component-node name=n component=bn input=t\n\
         component-node name=d component=drop input=n\n\
         output-node name=output input=d",
        &[
            component(
                "tdnn",
                "<TdnnComponent>",
                &[
                    ("<TimeOffsets>", offsets(&[-1, 1])),
                    ("<LinearParams>", fm(1, 2, &[1.0, 10.0])),
                ],
            ),
            component(
                "bn",
                "<BatchNormComponent>",
                &[
                    ("<Epsilon>", sized_f(0.0)),
                    ("<StatsMean>", fv(&[1.0])),
                    ("<StatsVar>", fv(&[4.0])),
                ],
            ),
            component("drop", "<GeneralDropoutComponent>", &[]),
        ],
    );
    let y = forward(&bytes, mat(2, 1, &[1.0, 3.0]), mat(2, 1, &[0.0, 0.0])).unwrap();
    // Row 0: (1 * 1 + 10 * 3 - 1) / 2.
    assert_eq!(nums(&y), vec![15.0]);
}

#[test]
fn networks_that_cannot_be_evaluated() {
    let feats = || mat(1, 2, &[1.0, 2.0]);
    let iv = || mat(1, 1, &[0.0]);
    for graph in [
        "input-node name=input dim=2",
        "output-node name=output input=nowhere",
        "output-node name=output input=output",
        "component-node name=a component=relu input=b\n\
         component-node name=b component=relu input=a\noutput-node name=output input=a",
        "component-node name=a component=missing input=input\noutput-node name=output input=a",
        "dim-range-node name=a input-node=input dim-offset=1 dim=2\n\
         output-node name=output input=a",
        "component-node name=a component=wide input=input\noutput-node name=output input=a",
        "input-node name=other dim=2\noutput-node name=output input=other",
    ] {
        let bytes = model(
            graph,
            &[
                component("relu", "<RectifiedLinearComponent>", &[]),
                component("wide", "<LinearComponent>", &[("<Params>", fm(1, 3, &[1.0; 3]))]),
            ],
        );
        assert!(
            matches!(forward(&bytes, feats(), iv()), Err(EvalError::Mismatch)),
            "{graph}"
        );
    }
}

#[test]
fn nodes_are_shared_not_cyclic() {
    // Every node uses the one before it twice.
    let mut graph = String::from("input-node name=input dim=1\n");
    let mut last = String::from("input");
    for i in 0..40 {
        graph.push_str(&format!("output-node name=n{i} input=Sum({last}, {last})\n"));
        last = format!("n{i}");
    }
    graph.push_str(&format!("output-node name=output input=Scale(0.5, {last})"));
    let y = forward(&model(&graph, &[]), mat(1, 1, &[1.0]), mat(1, 1, &[0.0])).unwrap();
    assert_eq!(nums(&y), vec![2.0f32.powi(39)]);
}

#[test]
fn nodes_that_the_output_does_not_need() {
    let lines = "input-node name=input dim=2\n\
                 component-node name=a component=c input=Offset(input, 1)\n\
                 output-node name=output input=Sum(a, input)\n";
    let layers =
        [component("c", "<LinearComponent>", &[("<Params>", fm(2, 2, &[1.0, 2.0, 3.0, 4.0]))])];
    let feats = [0.5, 1.5, 2.5, 3.5];
    let run = |graph: &str| {
        forward(&model(graph, &layers), mat(2, 2, &feats), mat(1, 1, &[0.0])).map(|y| nums(&y))
    };
    let want = run(lines).unwrap();
    assert_eq!(want, vec![10.0, 23.0]);
    // A second branch, one that needs itself, and ones that lack something.
    for extra in [
        "component-node name=b component=c input=a\noutput-node name=output-xent input=b\n",
        "component-node name=x component=c input=x\n",
        "component-node name=x component=missing input=input\n",
        "output-node name=output-xent input=missing\n",
        "component-node name=x component=c input=Append(input, input)\n",
    ] {
        assert_eq!(run(&format!("{lines}{extra}")).unwrap(), want, "{extra}");
    }
}

#[test]
fn networks_that_cannot_be_loaded() {
    assert!(matches!(Nnet3::load::<Native>(b""), Err(LoadError::NoGraph)));
    let bytes = model("output-node name=output input=Offset(a)", &[]);
    assert!(matches!(Nnet3::load::<Native>(&bytes), Err(LoadError::BadDescriptor)));
    // Components are read first.
    let bytes = component("c", "<LinearComponent>", &[]);
    assert!(matches!(Nnet3::load::<Native>(&bytes), Err(LoadError::MissingItem)));
}
