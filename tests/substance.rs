use medicines::substance::{
    add_document_for_product, add_product_for_substance, add_product_for_substance_index,
    format_index_search_results, format_search_results, letter_facet, Document, FacetResult,
    Product, ProductFacet, Substance, SubstanceIndex,
};

fn index_result(product_name: &str, substance_name: &[&str], facets: &[&str]) -> Document {
    Document {
        file_name: "CON1587463572172".into(),
        title: "spc-doc_PL 16363-0365.pdf".into(),
        product_name: Some(product_name.into()),
        substance_names: substance_name.iter().map(|&s| s.into()).collect(),
        facets: facets.iter().map(|&s| s.into()).collect(),
    }
}

fn facet(value: &str, count: i32) -> FacetResult {
    FacetResult::new(value.to_string(), count)
}

#[test]
fn formats_search_results_containing_multiple_products() {
    let letter = 'Z';

    let zonismade_25mg = index_result(
        "ZONISAMIDE ARISTO 25 MG HARD CAPSULES",
        &["ZONISAMIDE"],
        &[
            "Z",
            "Z, ZONISAMIDE",
            "Z, ZONISAMIDE, ZONISAMIDE ARISTO 25 MG HARD CAPSULES",
        ],
    );
    let zonismade_50mg = index_result(
        "ZONISAMIDE ARISTO 50 MG HARD CAPSULES",
        &["ZONISAMIDE"],
        &[
            "Z",
            "Z, ZONISAMIDE",
            "Z, ZONISAMIDE, ZONISAMIDE ARISTO 50 MG HARD CAPSULES",
        ],
    );
    let zonismade_50mg_repeat = index_result(
        "ZONISAMIDE ARISTO 50 MG HARD CAPSULES",
        &["ZONISAMIDE"],
        &[
            "Z",
            "Z, ZONISAMIDE",
            "Z, ZONISAMIDE, ZONISAMIDE ARISTO 50 MG HARD CAPSULES",
        ],
    );
    let zolmitriptan = index_result(
        "ZOMIG RAPIMELT 2.5 MG ORODISPERSIBLE TABLETS",
        &["ZOLMITRIPTAN"],
        &[
            "Z",
            "Z, ZOLMITRIPTAN",
            "Z, ZOLMITRIPTAN, ZOMIG RAPIMELT 2.5 MG ORODISPERSIBLE TABLETS",
        ],
    );

    let results = vec![
        zonismade_25mg.clone(),
        zonismade_50mg.clone(),
        zonismade_50mg_repeat.clone(),
        zolmitriptan.clone(),
    ];

    let zon50: Vec<Document> = vec![zonismade_50mg, zonismade_50mg_repeat];
    let zon25: Vec<Document> = vec![zonismade_25mg];
    let zol: Vec<Document> = vec![zolmitriptan];

    let formatted = format_search_results(results, letter);

    let expected = vec![
        Substance::new(
            "ZOLMITRIPTAN".into(),
            vec![Product::new(
                "ZOMIG RAPIMELT 2.5 MG ORODISPERSIBLE TABLETS".into(),
                Some(zol),
            )],
        ),
        Substance::new(
            "ZONISAMIDE".into(),
            vec![
                Product::new("ZONISAMIDE ARISTO 25 MG HARD CAPSULES".into(), Some(zon25)),
                Product::new("ZONISAMIDE ARISTO 50 MG HARD CAPSULES".into(), Some(zon50)),
            ],
        ),
    ];

    assert_eq!(formatted, expected);
}

#[test]
fn formats_products_that_contain_multiple_substances() {
    let letter = 'Z';

    let index_result = index_result(
        "LAMIVUDINE/ZIDOVUDINE 150 MG/300 MG FILM-COATED TABLETS",
        &["LAMIVUDINE", "ZIDOVUDINE"],
        &[
            "L",
            "L, LAMIVUDINE",
            "L, LAMIVUDINE, LAMIVUDINE/ZIDOVUDINE 150 MG/300 MG FILM-COATED TABLETS",
            "Z",
            "Z, ZIDOVUDINE",
            "Z, ZIDOVUDINE, LAMIVUDINE/ZIDOVUDINE 150 MG/300 MG FILM-COATED TABLETS",
        ],
    );
    let document = index_result.clone();

    let results = vec![index_result];

    let formatted = format_search_results(results, letter);

    let expected = vec![Substance::new(
        "ZIDOVUDINE".into(),
        vec![Product::new(
            "LAMIVUDINE/ZIDOVUDINE 150 MG/300 MG FILM-COATED TABLETS".into(),
            Some(vec![document]),
        )],
    )];

    assert_eq!(formatted, expected);
}

#[test]
fn formats_index_of_a_single_product() {
    let results = vec![
        facet("Z", 3),
        facet("Z, ZONISAMIDE", 3),
        facet("Z, ZONISAMIDE, ZONISAMIDE ARISTO 25 MG HARD CAPSULES", 3),
    ];
    let expected = vec![SubstanceIndex::new(
        "ZONISAMIDE".into(),
        vec![ProductFacet::new("ZONISAMIDE ARISTO 25 MG HARD CAPSULES".into(), 3)],
    )];
    assert_eq!(format_index_search_results(results), expected);
}

#[test]
fn index_is_sorted_by_substance_then_product() {
    let results = vec![
        facet("Z, ZONISAMIDE, ZONISAMIDE B", 1),
        facet("Z, ZOLMITRIPTAN, ZOMIG", 2),
        facet("Z, ZONISAMIDE, ZONISAMIDE A", 3),
        facet("Z, ZIDOVUDINE, RETROVIR", 4),
    ];
    let expected = vec![
        SubstanceIndex::new("ZIDOVUDINE".into(), vec![ProductFacet::new("RETROVIR".into(), 4)]),
        SubstanceIndex::new("ZOLMITRIPTAN".into(), vec![ProductFacet::new("ZOMIG".into(), 2)]),
        SubstanceIndex::new(
            "ZONISAMIDE".into(),
            vec![
                ProductFacet::new("ZONISAMIDE A".into(), 3),
                ProductFacet::new("ZONISAMIDE B".into(), 1),
            ],
        ),
    ];
    assert_eq!(format_index_search_results(results), expected);
}

#[test]
fn index_orders_names_by_bytes() {
    let results = vec![facet("Z, Zb, P", 1), facet("Z, ZB, P", 2), facet("Z, Z, P", 3)];
    let names: Vec<String> = format_index_search_results(results)
        .into_iter()
        .map(|s| s.name)
        .collect();
    assert_eq!(names, vec!["Z".to_string(), "ZB".to_string(), "Zb".to_string()]);
}

#[test]
fn index_keeps_last_count_of_repeated_pair() {
    let results = vec![
        facet("Z, ZONISAMIDE, ZONISAMIDE ARISTO 25 MG HARD CAPSULES", 3),
        facet("Z, ZONISAMIDE, ZONISAMIDE ARISTO 25 MG HARD CAPSULES", 7),
    ];
    let expected = vec![SubstanceIndex::new(
        "ZONISAMIDE".into(),
        vec![ProductFacet::new("ZONISAMIDE ARISTO 25 MG HARD CAPSULES".into(), 7)],
    )];
    assert_eq!(format_index_search_results(results), expected);
}

#[test]
fn index_ignores_short_facet_paths() {
    let results = vec![facet("Z", 5), facet("Z, ZONISAMIDE", 5), facet("", 1)];
    assert_eq!(format_index_search_results(results), vec![]);
}

#[test]
fn index_trims_levels_and_ignores_deeper_ones() {
    let results = vec![facet("Z,\t ZONISAMIDE  , ZONISAMIDE 25 MG ,EXTRA", 2)];
    let expected = vec![SubstanceIndex::new(
        "ZONISAMIDE".into(),
        vec![ProductFacet::new("ZONISAMIDE 25 MG".into(), 2)],
    )];
    assert_eq!(format_index_search_results(results), expected);
}

#[test]
fn index_passes_empty_levels_through() {
    let results = vec![facet("Z,,", 4)];
    let expected = vec![SubstanceIndex::new(
        "".into(),
        vec![ProductFacet::new("".into(), 4)],
    )];
    assert_eq!(format_index_search_results(results), expected);
}

#[test]
fn empty_input_gives_empty_views() {
    assert_eq!(format_index_search_results(vec![]), vec![]);
    assert_eq!(format_search_results(vec![], 'Z'), vec![]);
}

#[test]
fn detail_keeps_repeated_documents_in_input_order() {
    let first = Document {
        title: "first".into(),
        ..index_result("ZOMIG", &["ZOLMITRIPTAN"], &["Z"])
    };
    let second = Document {
        title: "second".into(),
        ..index_result("ZOMIG", &["ZOLMITRIPTAN"], &["Z"])
    };
    let third = Document {
        title: "third".into(),
        ..index_result("ZOMIG", &["ZOLMITRIPTAN"], &["Z"])
    };
    let formatted = format_search_results(vec![first.clone(), second.clone(), third.clone()], 'Z');
    let expected = vec![Substance::new(
        "ZOLMITRIPTAN".into(),
        vec![Product::new("ZOMIG".into(), Some(vec![first, second, third]))],
    )];
    assert_eq!(formatted, expected);
}

#[test]
fn detail_excludes_document_without_letter_tag() {
    let doc = index_result("ZOMIG", &["ZOLMITRIPTAN"], &["Z, ZOLMITRIPTAN", "L"]);
    assert_eq!(format_search_results(vec![doc], 'Z'), vec![]);
}

#[test]
fn detail_excludes_document_without_product() {
    let doc = Document {
        product_name: None,
        ..index_result("ZOMIG", &["ZOLMITRIPTAN"], &["Z"])
    };
    assert_eq!(format_search_results(vec![doc], 'Z'), vec![]);
}

#[test]
fn detail_excludes_document_without_matching_substance() {
    let doc = index_result("ZOMIG", &["ALMOTRIPTAN"], &["Z"]);
    assert_eq!(format_search_results(vec![doc], 'Z'), vec![]);
}

#[test]
fn detail_matches_letter_ignoring_ascii_case() {
    let doc = index_result("ZOMIG", &["zolmitriptan"], &["Z"]);
    let formatted = format_search_results(vec![doc.clone()], 'z');
    let expected = vec![Substance::new(
        "zolmitriptan".into(),
        vec![Product::new("ZOMIG".into(), Some(vec![doc]))],
    )];
    assert_eq!(formatted, expected);
}

#[test]
fn letter_facet_is_upper_case() {
    assert_eq!(letter_facet('z'), "Z".to_string());
    assert_eq!(letter_facet('Q'), "Q".to_string());
}

#[test]
fn adding_products_to_index_overwrites_counts() {
    let mut substances = vec![];
    add_product_for_substance_index(&mut substances, "B".into(), "P".into(), 1);
    add_product_for_substance_index(&mut substances, "A".into(), "Q".into(), 2);
    add_product_for_substance_index(&mut substances, "B".into(), "P".into(), 5);
    let expected = vec![
        SubstanceIndex::new("A".into(), vec![ProductFacet::new("Q".into(), 2)]),
        SubstanceIndex::new("B".into(), vec![ProductFacet::new("P".into(), 5)]),
    ];
    assert_eq!(substances, expected);
}

#[test]
fn adding_documents_appends_to_existing_product() {
    let a = index_result("P", &["S"], &["S"]);
    let b = Document {
        title: "other".into(),
        ..index_result("P", &["S"], &["S"])
    };
    let mut products = vec![];
    add_document_for_product(&mut products, "P".into(), a.clone());
    add_document_for_product(&mut products, "O".into(), b.clone());
    add_document_for_product(&mut products, "P".into(), b.clone());
    let expected = vec![
        Product::new("O".into(), Some(vec![b.clone()])),
        Product::new("P".into(), Some(vec![a.clone(), b.clone()])),
    ];
    assert_eq!(products, expected);

    let mut substances = vec![];
    add_product_for_substance(&mut substances, "S".into(), "P".into(), a.clone());
    add_product_for_substance(&mut substances, "R".into(), "P".into(), b.clone());
    add_product_for_substance(&mut substances, "S".into(), "P".into(), b.clone());
    let expected = vec![
        Substance::new("R".into(), vec![Product::new("P".into(), Some(vec![b.clone()]))]),
        Substance::new("S".into(), vec![Product::new("P".into(), Some(vec![a, b]))]),
    ];
    assert_eq!(substances, expected);
}
