//! Search hits regrouped by substance and product, in name order: a count
//! index for browsing by letter, and a full listing of documents.
use vstd::prelude::*;
use crate::facet::{parse_facet, parse_facet_spec};
use crate::ordered::{
    find_slot, keyed_map, lemma_insert_at_slot, lemma_replace_at_slot, strictly_sorted, Keyed,
};

verus! {

/// One facet of the search backend's facet results, with its number of hits.
#[derive(Debug, PartialEq)]
pub struct FacetResult {
    pub value: String,
    pub count: i32,
}

impl FacetResult {
    pub fn new(value: String, count: i32) -> (r: Self)
        ensures
            r.value@ == value@,
            r.count == count,
    {
        FacetResult { value, count }
    }
}

/// A medical product containing active ingredients, with its number of documents.
#[derive(Debug, PartialEq)]
pub struct ProductFacet {
    pub name: String,
    pub count: i32,
}

impl ProductFacet {
    pub fn new(name: String, count: i32) -> (r: Self)
        ensures
            r.name@ == name@,
            r.count == count,
    {
        Self { name, count }
    }
}

impl Keyed for ProductFacet {
    open spec fn key(&self) -> Seq<char> {
        self.name@
    }

    fn key_str(&self) -> (r: &str) {
        self.name.as_str()
    }
}

/// An active ingredient found in medical products, with the number of
/// documents of each product.
#[derive(Debug, PartialEq)]
pub struct SubstanceIndex {
    pub name: String,
    pub products: Vec<ProductFacet>,
}

impl SubstanceIndex {
    pub fn new(name: String, products: Vec<ProductFacet>) -> (r: Self)
        ensures
            r.name@ == name@,
            r.products@ == products@,
    {
        Self { name, products }
    }
}

impl Keyed for SubstanceIndex {
    open spec fn key(&self) -> Seq<char> {
        self.name@
    }

    fn key_str(&self) -> (r: &str) {
        self.name.as_str()
    }
}

pub open spec fn facet_count() -> spec_fn(ProductFacet) -> i32 {
    |p: ProductFacet| p.count
}

/// Product name to count.
pub open spec fn counts_of(products: Seq<ProductFacet>) -> Map<Seq<char>, i32> {
    keyed_map(products, facet_count())
}

pub open spec fn substance_counts() -> spec_fn(SubstanceIndex) -> Map<Seq<char>, i32> {
    |s: SubstanceIndex| counts_of(s.products@)
}

/// Substance name to product name to count.
pub open spec fn index_model(subs: Seq<SubstanceIndex>) -> Map<Seq<char>, Map<Seq<char>, i32>> {
    keyed_map(subs, substance_counts())
}

/// Substances in strict name order, and the products of each in strict name order.
pub open spec fn index_wf(subs: Seq<SubstanceIndex>) -> bool {
    &&& strictly_sorted(subs)
    &&& forall|i: int| 0 <= i < subs.len() ==> strictly_sorted(#[trigger] subs[i].products@)
}

/// Sets the count of a substance's product, adding either where it is new;
/// a later count for the same pair replaces the earlier one.
pub open spec fn set_count(
    m: Map<Seq<char>, Map<Seq<char>, i32>>,
    substance: Seq<char>,
    product: Seq<char>,
    count: i32,
) -> Map<Seq<char>, Map<Seq<char>, i32>> {
    let products = if m.contains_key(substance) {
        m[substance]
    } else {
        Map::empty()
    };
    m.insert(substance, products.insert(product, count))
}

/// The index that a sequence of facet results gives, folded in input order.
pub open spec fn index_of_facets(facets: Seq<FacetResult>) -> Map<Seq<char>, Map<Seq<char>, i32>>
    decreases facets.len(),
{
    if facets.len() == 0 {
        Map::empty()
    } else {
        let m = index_of_facets(facets.drop_last());
        match parse_facet_spec(facets.last().value@) {
            Some((substance, product)) => set_count(m, substance, product, facets.last().count),
            None => m,
        }
    }
}

fn set_product_count(products: &mut Vec<ProductFacet>, name: String, count: i32)
    requires
        strictly_sorted(old(products)@),
    ensures
        strictly_sorted(final(products)@),
        counts_of(final(products)@) == counts_of(old(products)@).insert(name@, count),
{
    let (found, idx) = find_slot(products, name.as_str());
    let ghost before = products@;
    let facet = ProductFacet::new(name, count);
    if found {
        products.set(idx, facet);
        proof {
            lemma_replace_at_slot(before, idx as int, facet, facet_count());
        }
    } else {
        products.insert(idx, facet);
        proof {
            lemma_insert_at_slot(before, idx as int, facet, facet_count());
        }
    }
}

/// Records `count` documents for the product under the substance.
pub fn add_product_for_substance_index(
    substances: &mut Vec<SubstanceIndex>,
    substance: String,
    product: String,
    document_count: i32,
)
    requires
        index_wf(old(substances)@),
    ensures
        index_wf(final(substances)@),
        index_model(final(substances)@) == set_count(
            index_model(old(substances)@),
            substance@,
            product@,
            document_count,
        ),
{
    let ghost before = substances@;
    let (found, idx) = find_slot(substances, substance.as_str());
    proof {
        crate::ordered::lemma_keyed_map(before, substance_counts());
    }
    if found {
        let ghost old_entry = substances@[idx as int];
        set_product_count(&mut substances[idx].products, product, document_count);
        proof {
            let entry = substances@[idx as int];
            assert(substances@ == before.update(idx as int, entry));
            lemma_replace_at_slot(before, idx as int, entry, substance_counts());
            assert(index_model(before)[before[idx as int].key()] == counts_of(old_entry.products@));
            assert forall|i: int| 0 <= i < substances@.len() implies strictly_sorted(
                #[trigger] substances@[i].products@,
            ) by {
                if i != idx {
                    assert(substances@[i] == before[i]);
                }
            }
        }
    } else {
        let mut products: Vec<ProductFacet> = Vec::new();
        let ghost empty = products@;
        set_product_count(&mut products, product, document_count);
        let entry = SubstanceIndex::new(substance, products);
        substances.insert(idx, entry);
        proof {
            assert(counts_of(empty) == Map::<Seq<char>, i32>::empty());
            lemma_insert_at_slot(before, idx as int, entry, substance_counts());
            if index_model(before).contains_key(substance@) {
                let j = choose|j: int| 0 <= j < before.len() && before[j].key() == substance@;
                crate::ordered::lemma_bytes_lt_irreflexive(vstd::utf8::encode_utf8(substance@));
                if j < idx {
                    assert(crate::ordered::name_lt(before[j].key(), substance@));
                } else {
                    assert(crate::ordered::name_lt(substance@, before[j].key()));
                }
            }
            assert forall|i: int| 0 <= i < substances@.len() implies strictly_sorted(
                #[trigger] substances@[i].products@,
            ) by {
                if i < idx {
                    assert(substances@[i] == before[i]);
                } else if i > idx {
                    assert(substances@[i] == before[i - 1]);
                }
            }
        }
    }
}

/// The count index of the facet results: substances in name order, each
/// with its products in name order and the last count given for each.
pub fn format_index_search_results(results: Vec<FacetResult>) -> (r: Vec<SubstanceIndex>)
    ensures
        index_wf(r@),
        index_model(r@) == index_of_facets(results@),
        results@.len() == 0 ==> r@.len() == 0,
{
    let mut substances: Vec<SubstanceIndex> = Vec::new();
    let mut i: usize = 0;
    while i < results.len()
        invariant
            i <= results@.len(),
            index_wf(substances@),
            index_model(substances@) == index_of_facets(results@.subrange(0, i as int)),
        decreases results@.len() - i,
    {
        let ghost prefix = results@.subrange(0, i + 1);
        proof {
            assert(prefix.drop_last() =~= results@.subrange(0, i as int));
            assert(prefix.last() == results@[i as int]);
        }
        match parse_facet(results[i].value.as_str()) {
            Some((substance, product)) => {
                add_product_for_substance_index(&mut substances, substance, product, results[i].count);
            },
            None => {},
        }
        i = i + 1;
    }
    proof {
        assert(results@.subrange(0, results@.len() as int) =~= results@);
        if results@.len() == 0 && substances@.len() > 0 {
            crate::ordered::lemma_keyed_map(substances@, substance_counts());
            assert(index_model(substances@).contains_key(substances@[0].key()));
        }
    }
    substances
}


/// A search hit as a structured document.
#[derive(Clone, Debug, PartialEq)]
pub struct Document {
    pub file_name: String,
    pub title: String,
    pub product_name: Option<String>,
    pub substance_names: Vec<String>,
    pub facets: Vec<String>,
}

/// The upper-case form of an ASCII letter; any other character as it is.
pub open spec fn ascii_upper_spec(c: char) -> char {
    if 'a' <= c <= 'z' {
        ((c as u32) - 32) as char
    } else {
        c
    }
}

pub fn ascii_upper(c: char) -> (r: char)
    ensures
        r == ascii_upper_spec(c),
{
    if 'a' <= c && c <= 'z' {
        let u: u8 = ((c as u32) - 32) as u8;
        u as char
    } else {
        c
    }
}

/// A medical product containing active ingredients, with its documents.
#[derive(Debug, PartialEq)]
pub struct Product {
    pub name: String,
    pub documents: Option<Vec<Document>>,
}

impl Product {
    pub fn new(name: String, documents: Option<Vec<Document>>) -> (r: Self)
        ensures
            r.name@ == name@,
            r.documents == documents,
    {
        Self { name, documents }
    }
}

impl Keyed for Product {
    open spec fn key(&self) -> Seq<char> {
        self.name@
    }

    fn key_str(&self) -> (r: &str) {
        self.name.as_str()
    }
}

/// An active ingredient found in medical products, with the documents of
/// each product.
#[derive(Debug, PartialEq)]
pub struct Substance {
    pub name: String,
    pub products: Vec<Product>,
}

impl Substance {
    pub fn new(name: String, products: Vec<Product>) -> (r: Self)
        ensures
            r.name@ == name@,
            r.products@ == products@,
    {
        Self { name, products }
    }
}

impl Keyed for Substance {
    open spec fn key(&self) -> Seq<char> {
        self.name@
    }

    fn key_str(&self) -> (r: &str) {
        self.name.as_str()
    }
}

pub open spec fn product_docs() -> spec_fn(Product) -> Seq<Document> {
    |p: Product|
        match p.documents {
            Some(d) => d@,
            None => Seq::empty(),
        }
}

/// Product name to documents.
pub open spec fn docs_of(products: Seq<Product>) -> Map<Seq<char>, Seq<Document>> {
    keyed_map(products, product_docs())
}

/// Products in strict name order, each with a document list.
pub open spec fn products_wf(products: Seq<Product>) -> bool {
    &&& strictly_sorted(products)
    &&& forall|i: int| 0 <= i < products.len() ==> (#[trigger] products[i]).documents is Some
}

pub open spec fn substance_docs() -> spec_fn(Substance) -> Map<Seq<char>, Seq<Document>> {
    |s: Substance| docs_of(s.products@)
}

/// Substance name to product name to documents.
pub open spec fn detail_model(subs: Seq<Substance>) -> Map<Seq<char>, Map<Seq<char>, Seq<Document>>> {
    keyed_map(subs, substance_docs())
}

/// Substances in strict name order, each with well-formed products.
pub open spec fn detail_wf(subs: Seq<Substance>) -> bool {
    &&& strictly_sorted(subs)
    &&& forall|i: int| 0 <= i < subs.len() ==> products_wf(#[trigger] subs[i].products@)
}

/// The documents under a product name, none where it is absent.
pub open spec fn docs_at(m: Map<Seq<char>, Seq<Document>>, product: Seq<char>) -> Seq<Document> {
    if m.contains_key(product) {
        m[product]
    } else {
        Seq::empty()
    }
}

/// Appends a document under its product.
pub open spec fn append_doc(
    m: Map<Seq<char>, Seq<Document>>,
    product: Seq<char>,
    doc: Document,
) -> Map<Seq<char>, Seq<Document>> {
    m.insert(product, docs_at(m, product).push(doc))
}

/// Appends a document under its substance and product, adding either where it is new.
pub open spec fn append_detail(
    m: Map<Seq<char>, Map<Seq<char>, Seq<Document>>>,
    substance: Seq<char>,
    product: Seq<char>,
    doc: Document,
) -> Map<Seq<char>, Map<Seq<char>, Seq<Document>>> {
    let products = if m.contains_key(substance) {
        m[substance]
    } else {
        Map::empty()
    };
    m.insert(substance, append_doc(products, product, doc))
}

/// Adds a document to the product of that name, creating the product where it is new.
pub fn add_document_for_product(products: &mut Vec<Product>, name: String, document: Document)
    requires
        products_wf(old(products)@),
    ensures
        products_wf(final(products)@),
        docs_of(final(products)@) == append_doc(docs_of(old(products)@), name@, document),
{
    let ghost before = products@;
    let (found, idx) = find_slot(products, name.as_str());
    proof {
        crate::ordered::lemma_keyed_map(before, product_docs());
    }
    if found {
        let ghost old_entry = products@[idx as int];
        match &mut products[idx].documents {
            Some(docs) => {
                docs.push(document);
            },
            None => {},
        }
        proof {
            let entry = products@[idx as int];
            assert(products@ == before.update(idx as int, entry));
            assert(docs_of(before)[before[idx as int].key()] == product_docs()(old_entry));
            lemma_replace_at_slot(before, idx as int, entry, product_docs());
            assert forall|i: int| 0 <= i < products@.len() implies (#[trigger] products@[i]).documents is Some by {
                if i != idx {
                    assert(products@[i] == before[i]);
                }
            }
        }
    } else {
        let mut docs: Vec<Document> = Vec::new();
        docs.push(document);
        let entry = Product::new(name, Some(docs));
        products.insert(idx, entry);
        proof {
            lemma_insert_at_slot(before, idx as int, entry, product_docs());
            if docs_of(before).contains_key(entry.name@) {
                let j = choose|j: int| 0 <= j < before.len() && before[j].key() == entry.name@;
                crate::ordered::lemma_bytes_lt_irreflexive(vstd::utf8::encode_utf8(entry.name@));
                if j < idx {
                    assert(crate::ordered::name_lt(before[j].key(), entry.name@));
                } else {
                    assert(crate::ordered::name_lt(entry.name@, before[j].key()));
                }
            }
            assert(product_docs()(entry) =~= Seq::<Document>::empty().push(document));
            assert forall|i: int| 0 <= i < products@.len() implies (#[trigger] products@[i]).documents is Some by {
                if i < idx {
                    assert(products@[i] == before[i]);
                } else if i > idx {
                    assert(products@[i] == before[i - 1]);
                }
            }
        }
    }
}

/// Adds a document under its substance and product, creating either where it is new.
pub fn add_product_for_substance(
    substances: &mut Vec<Substance>,
    substance: String,
    product: String,
    doc: Document,
)
    requires
        detail_wf(old(substances)@),
    ensures
        detail_wf(final(substances)@),
        detail_model(final(substances)@) == append_detail(
            detail_model(old(substances)@),
            substance@,
            product@,
            doc,
        ),
{
    let ghost before = substances@;
    let (found, idx) = find_slot(substances, substance.as_str());
    proof {
        crate::ordered::lemma_keyed_map(before, substance_docs());
    }
    if found {
        let ghost old_entry = substances@[idx as int];
        add_document_for_product(&mut substances[idx].products, product, doc);
        proof {
            let entry = substances@[idx as int];
            assert(substances@ == before.update(idx as int, entry));
            lemma_replace_at_slot(before, idx as int, entry, substance_docs());
            assert(detail_model(before)[before[idx as int].key()] == docs_of(old_entry.products@));
            assert forall|i: int| 0 <= i < substances@.len() implies products_wf(
                #[trigger] substances@[i].products@,
            ) by {
                if i != idx {
                    assert(substances@[i] == before[i]);
                }
            }
        }
    } else {
        let mut products: Vec<Product> = Vec::new();
        let ghost empty = products@;
        add_document_for_product(&mut products, product, doc);
        let entry = Substance::new(substance, products);
        substances.insert(idx, entry);
        proof {
            assert(docs_of(empty) == Map::<Seq<char>, Seq<Document>>::empty());
            lemma_insert_at_slot(before, idx as int, entry, substance_docs());
            if detail_model(before).contains_key(substance@) {
                let j = choose|j: int| 0 <= j < before.len() && before[j].key() == substance@;
                crate::ordered::lemma_bytes_lt_irreflexive(vstd::utf8::encode_utf8(substance@));
                if j < idx {
                    assert(crate::ordered::name_lt(before[j].key(), substance@));
                } else {
                    assert(crate::ordered::name_lt(substance@, before[j].key()));
                }
            }
            assert forall|i: int| 0 <= i < substances@.len() implies products_wf(
                #[trigger] substances@[i].products@,
            ) by {
                if i < idx {
                    assert(substances@[i] == before[i]);
                } else if i > idx {
                    assert(substances@[i] == before[i - 1]);
                }
            }
        }
    }
}

/// Whether a facet list holds the one-character tag of `upper`.
pub open spec fn has_letter_tag(facets: Seq<String>, upper: char) -> bool {
    exists|i: int| 0 <= i < facets.len() && (#[trigger] facets[i])@ == seq![upper]
}

/// Whether a name starts with the letter `upper`, ignoring ASCII case.
pub open spec fn starts_with_letter(name: Seq<char>, upper: char) -> bool {
    name.len() > 0 && ascii_upper_spec(name[0]) == upper
}

/// The first name that starts with the letter `upper`.
pub open spec fn first_with_letter(names: Seq<String>, upper: char) -> Option<Seq<char>>
    decreases names.len(),
{
    if names.len() == 0 {
        None
    } else if starts_with_letter(names[0]@, upper) {
        Some(names[0]@)
    } else {
        first_with_letter(names.drop_first(), upper)
    }
}

/// Where a document is listed for `letter`: under the first of its
/// substances that starts with the letter and under its product, if it is
/// tagged with the letter and has a product name.
pub open spec fn listing_of(doc: Document, letter: char) -> Option<(Seq<char>, Seq<char>)> {
    let upper = ascii_upper_spec(letter);
    if !has_letter_tag(doc.facets@, upper) {
        None
    } else {
        match (first_with_letter(doc.substance_names@, upper), doc.product_name) {
            (Some(substance), Some(product)) => Some((substance, product@)),
            _ => None,
        }
    }
}

/// The listing that a sequence of documents gives for `letter`, folded in input order.
pub open spec fn detail_of_docs(docs: Seq<Document>, letter: char) -> Map<
    Seq<char>,
    Map<Seq<char>, Seq<Document>>,
>
    decreases docs.len(),
{
    if docs.len() == 0 {
        Map::empty()
    } else {
        let m = detail_of_docs(docs.drop_last(), letter);
        match listing_of(docs.last(), letter) {
            Some((substance, product)) => append_detail(m, substance, product, docs.last()),
            None => m,
        }
    }
}

/// The root facet of a letter: the letter in upper case, alone.
pub fn letter_facet(letter: char) -> (r: String)
    ensures
        r@ == seq![ascii_upper_spec(letter)],
{
    let mut one: Vec<char> = Vec::new();
    one.push(ascii_upper(letter));
    let tag = crate::facet::string_of(one.as_slice());
    proof {
        assert(tag@ =~= seq![ascii_upper_spec(letter)]);
    }
    tag
}

fn has_tag(facets: &Vec<String>, letter: char) -> (r: bool)
    ensures
        r == has_letter_tag(facets@, ascii_upper_spec(letter)),
{
    let tag = letter_facet(letter);
    let mut i: usize = 0;
    while i < facets.len()
        invariant
            i <= facets@.len(),
            tag@ == seq![ascii_upper_spec(letter)],
            forall|j: int| 0 <= j < i ==> (#[trigger] facets@[j])@ != seq![ascii_upper_spec(letter)],
        decreases facets@.len() - i,
    {
        if facets[i] == tag {
            return true;
        }
        i = i + 1;
    }
    false
}

fn first_substance(names: &Vec<String>, upper: char) -> (r: Option<String>)
    ensures
        r matches Some(s) ==> first_with_letter(names@, upper) == Some(s@),
        r is None ==> first_with_letter(names@, upper) is None,
{
    let mut i: usize = 0;
    proof {
        assert(names@.subrange(0, names@.len() as int) =~= names@);
    }
    while i < names.len()
        invariant
            i <= names@.len(),
            first_with_letter(names@, upper) == first_with_letter(names@.subrange(i as int, names@.len() as int), upper),
        decreases names@.len() - i,
    {
        let chars = crate::facet::chars_of(names[i].as_str());
        let ghost rest = names@.subrange(i as int, names@.len() as int);
        proof {
            assert(rest[0] == names@[i as int]);
            assert(rest.drop_first() =~= names@.subrange(i + 1, names@.len() as int));
        }
        if chars.len() > 0 && ascii_upper(chars[0]) == upper {
            return Some(names[i].clone());
        }
        i = i + 1;
    }
    None
}

/// The listing of the documents for `letter`: substances in name order,
/// each with its products in name order and each product's documents in
/// input order.
pub fn format_search_results(results: Vec<Document>, letter: char) -> (r: Vec<Substance>)
    ensures
        detail_wf(r@),
        detail_model(r@) == detail_of_docs(results@, letter),
        results@.len() == 0 ==> r@.len() == 0,
{
    let upper = ascii_upper(letter);
    let mut substances: Vec<Substance> = Vec::new();
    let mut rest = results;
    let ghost all = rest@;
    let ghost n = all.len();
    proof {
        assert(all.subrange(0, 0) =~= Seq::<Document>::empty());
        assert(all.subrange(0, n as int) =~= all);
    }
    while rest.len() > 0
        invariant
            upper == ascii_upper_spec(letter),
            n == all.len(),
            rest@.len() <= n,
            rest@ == all.subrange(n - rest@.len(), n as int),
            detail_wf(substances@),
            detail_model(substances@) == detail_of_docs(all.subrange(0, n - rest@.len()), letter),
        decreases rest@.len(),
    {
        let ghost i = n - rest@.len();
        let doc = rest.remove(0);
        proof {
            let prefix = all.subrange(0, i + 1);
            assert(prefix.drop_last() =~= all.subrange(0, i));
            assert(prefix.last() == doc);
            assert(rest@ =~= all.subrange(i + 1, n as int));
        }
        if has_tag(&doc.facets, letter) {
            match first_substance(&doc.substance_names, upper) {
                Some(substance) => {
                    match &doc.product_name {
                        Some(product) => {
                            let product = product.clone();
                            add_product_for_substance(&mut substances, substance, product, doc);
                        },
                        None => {},
                    }
                },
                None => {},
            }
        }
    }
    proof {
        if n == 0 && substances@.len() > 0 {
            crate::ordered::lemma_keyed_map(substances@, substance_docs());
            assert(detail_model(substances@).contains_key(substances@[0].key()));
        }
    }
    substances
}

/// Of the facets that name a substance and product, the last one gives the
/// count that the index holds for them.
pub proof fn lemma_index_last_count_wins(
    facets: Seq<FacetResult>,
    j: int,
    substance: Seq<char>,
    product: Seq<char>,
)
    requires
        0 <= j < facets.len(),
        parse_facet_spec(facets[j].value@) == Some((substance, product)),
        forall|k: int| j < k < facets.len() ==> parse_facet_spec(#[trigger] facets[k].value@) != Some((substance, product)),
    ensures
        index_of_facets(facets).contains_key(substance),
        index_of_facets(facets)[substance].contains_key(product),
        index_of_facets(facets)[substance][product] == facets[j].count,
    decreases facets.len(),
{
    if j < facets.len() - 1 {
        let t = facets.drop_last();
        assert forall|k: int| j < k < t.len() implies parse_facet_spec(#[trigger] t[k].value@) != Some((substance, product)) by {
            assert(t[k] == facets[k]);
        }
        assert(t[j] == facets[j]);
        lemma_index_last_count_wins(t, j, substance, product);
        assert(parse_facet_spec(facets.last().value@) != Some((substance, product)));
    }
}

/// A facet path of fewer than three levels leaves the index as it would be without it.
pub proof fn lemma_short_facet_ignored(
    before: Seq<FacetResult>,
    facet: FacetResult,
    after: Seq<FacetResult>,
)
    requires
        crate::facet::split_commas(facet.value@).len() < 3,
    ensures
        index_of_facets(before.push(facet) + after) == index_of_facets(before + after),
    decreases after.len(),
{
    if after.len() == 0 {
        assert(before.push(facet) + after =~= before.push(facet));
        assert(before.push(facet).drop_last() =~= before);
        assert(before + after =~= before);
    } else {
        let rest = after.drop_last();
        lemma_short_facet_ignored(before, facet, rest);
        assert((before.push(facet) + after).drop_last() =~= before.push(facet) + rest);
        assert((before + after).drop_last() =~= before + rest);
        assert((before.push(facet) + after).last() == after.last());
        assert((before + after).last() == after.last());
    }
}

/// The documents listed under a substance and product.
pub open spec fn listed_under(letter: char, substance: Seq<char>, product: Seq<char>) -> spec_fn(
    Document,
) -> bool {
    |d: Document| listing_of(d, letter) == Some((substance, product))
}

/// Each substance and product lists exactly the documents that belong
/// under it, in input order; one with none is not listed.
pub proof fn lemma_detail_lists_in_order(
    docs: Seq<Document>,
    letter: char,
    substance: Seq<char>,
    product: Seq<char>,
)
    ensures
        docs.filter(listed_under(letter, substance, product)).len() > 0 ==> {
            &&& detail_of_docs(docs, letter).contains_key(substance)
            &&& detail_of_docs(docs, letter)[substance].contains_key(product)
            &&& detail_of_docs(docs, letter)[substance][product] == docs.filter(
                listed_under(letter, substance, product),
            )
        },
        docs.filter(listed_under(letter, substance, product)).len() == 0 ==> !(detail_of_docs(
            docs,
            letter,
        ).contains_key(substance) && detail_of_docs(docs, letter)[substance].contains_key(product)),
    decreases docs.len(),
{
    reveal(Seq::filter);
    if docs.len() > 0 {
        lemma_detail_lists_in_order(docs.drop_last(), letter, substance, product);
    }
}

/// A document that is not listed for the letter leaves the listing as it
/// would be without it.
pub proof fn lemma_unlisted_document_ignored(
    before: Seq<Document>,
    doc: Document,
    after: Seq<Document>,
    letter: char,
)
    requires
        listing_of(doc, letter) is None,
    ensures
        detail_of_docs(before.push(doc) + after, letter) == detail_of_docs(before + after, letter),
    decreases after.len(),
{
    if after.len() == 0 {
        assert(before.push(doc) + after =~= before.push(doc));
        assert(before.push(doc).drop_last() =~= before);
        assert(before + after =~= before);
    } else {
        let rest = after.drop_last();
        lemma_unlisted_document_ignored(before, doc, rest, letter);
        assert((before.push(doc) + after).drop_last() =~= before.push(doc) + rest);
        assert((before + after).drop_last() =~= before + rest);
        assert((before.push(doc) + after).last() == after.last());
        assert((before + after).last() == after.last());
    }
}

/// A document not tagged with the letter is left out of the listing, even
/// where one of its substances starts with the letter.
pub proof fn lemma_untagged_document_ignored(
    before: Seq<Document>,
    doc: Document,
    after: Seq<Document>,
    letter: char,
)
    requires
        !has_letter_tag(doc.facets@, ascii_upper_spec(letter)),
    ensures
        detail_of_docs(before.push(doc) + after, letter) == detail_of_docs(before + after, letter),
{
    lemma_unlisted_document_ignored(before, doc, after, letter);
}

/// A document without a product name is left out of the listing.
pub proof fn lemma_document_without_product_ignored(
    before: Seq<Document>,
    doc: Document,
    after: Seq<Document>,
    letter: char,
)
    requires
        doc.product_name is None,
    ensures
        detail_of_docs(before.push(doc) + after, letter) == detail_of_docs(before + after, letter),
{
    lemma_unlisted_document_ignored(before, doc, after, letter);
}

} // verus!
