use pm4wasm::conversion::ptml::{from_ptml, ptml_from_tokens, to_ptml, PtmlToken};
use pm4wasm::process_tree::{ProcessTree, PtOperator};

#[test]
fn test_to_ptml_sequence() {
    let tree = ProcessTree::internal(
        PtOperator::Sequence,
        vec![ProcessTree::leaf(Some("A".to_string())), ProcessTree::leaf(Some("B".to_string()))],
    );
    let ptml = to_ptml(&tree);
    assert!(ptml.contains("<sequence>"));
    assert!(ptml.contains("<activity label=\"A\""));
    assert!(ptml.contains("<activity label=\"B\""));
    assert!(ptml.contains("</sequence>"));
}

#[test]
fn test_ptml_roundtrip() {
    let original = ProcessTree::internal(
        PtOperator::Xor,
        vec![
            ProcessTree::leaf(Some("A".to_string())),
            ProcessTree::internal(
                PtOperator::Parallel,
                vec![ProcessTree::leaf(Some("B".to_string())), ProcessTree::leaf(Some("C".to_string()))],
            ),
            ProcessTree::leaf(None), // tau
        ],
    );
    let ptml = to_ptml(&original);
    let restored = from_ptml(&ptml).unwrap();

    // Verify structure by checking repr
    assert_eq!(original.to_repr(), restored.to_repr());
}

#[test]
fn test_from_ptml_invalid() {
    let result = from_ptml("not xml");
    assert!(result.is_err());
}

#[test]
fn test_to_ptml_tau() {
    let tree = ProcessTree::internal(
        PtOperator::Sequence,
        vec![ProcessTree::leaf(Some("A".to_string())), ProcessTree::leaf(None), ProcessTree::leaf(Some("B".to_string()))],
    );
    let ptml = to_ptml(&tree);
    assert!(ptml.contains("<tau/>"));
}

#[test]
fn to_ptml_writes_nested_indentation() {
    let tree = ProcessTree::internal(
        PtOperator::Loop,
        vec![ProcessTree::internal(PtOperator::Xor, vec![ProcessTree::leaf(Some("A".into()))]), ProcessTree::leaf(None)],
    );
    let expected = "<?xml version=\"1.0\" encoding=\"UTF-8\"?>\n<ptml>\n  <loop>\n    <xor>\n      <activity label=\"A\"/>\n    </xor>\n    <tau/>\n  </loop>\n</ptml>\n";
    assert_eq!(to_ptml(&tree), expected);
}

#[test]
fn ptml_tokens_read_a_tree() {
    let attr = |k: &str, v: &str| vec![(k.to_string(), v.to_string())];
    let tokens = vec![
        PtmlToken::Start("ptml".into(), vec![]),
        PtmlToken::Start("sequence".into(), vec![]),
        PtmlToken::Empty("activity".into(), attr("label", "A")),
        PtmlToken::Start("parallel".into(), vec![]),
        PtmlToken::Empty("tau".into(), vec![]),
        PtmlToken::Empty("activity".into(), vec![("id".into(), "1".into()), ("label".into(), "B".into()), ("label".into(), "C".into())]),
        PtmlToken::End("parallel".into()),
        PtmlToken::Empty("unknown".into(), vec![]),
        PtmlToken::End("sequence".into()),
        PtmlToken::End("ptml".into()),
    ];
    let tree = ptml_from_tokens(&tokens).unwrap();
    assert_eq!(tree.to_repr(), "-> ( A, + ( tau, B ) )");
    assert_eq!(ptml_from_tokens(&vec![]).unwrap_err(), "Empty PTML: no process tree found");
    // A single leaf is a tree of its own.
    let leaf = ptml_from_tokens(&vec![PtmlToken::Empty("activity".into(), attr("label", "X"))]).unwrap();
    assert_eq!(leaf.to_repr(), "X");
}
