//! Realistic BibTeX texts for tests and measurements: entries as they appear
//! in the proceedings and journals of several venues, and a generator that
//! varies them into a file of any number of entries.

use vstd::prelude::*;
use vstd::std_specs::iter::IteratorSpec;
use vstd::string::*;
use crate::text::{decimal, push_char, push_decimal};

verus! {

/// String constants for common publishers/series.
pub const COMMON_STRINGS: &'static str = r#"
@string{neurips = "Advances in Neural Information Processing Systems"}
@string{icml = "International Conference on Machine Learning"}
@string{iclr = "International Conference on Learning Representations"}
@string{pmlr = "Proceedings of Machine Learning Research"}
@string{curran = "Curran Associates, Inc."}
@string{aps = "American Physical Society"}
@string{mit = "MIT Press"}
@string{annrev = "Annual Reviews"}
"#;

/// A small file: one string macro and two entries.
pub const SMALL_TEST_FILE: &'static str = r#"@string{ieee = "IEEE Transactions"}

@article{test2024,
    author = {Smith, John and Doe, Jane and Johnson, Robert},
    title = {A Comprehensive Study of Machine Learning Applications in Network Security},
    journal = ieee,
    volume = {42},
    number = {3},
    pages = {123--145},
    year = {2024},
    doi = {10.1109/TNET.2024.1234567}
}

@inproceedings{conf2023,
    author = {Williams, Alice and Brown, Bob and Davis, Carol and Evans, David},
    title = {Deep Learning for Real-Time Anomaly Detection in Large-Scale Distributed Systems},
    booktitle = {Proceedings of the 40th International Conference on Machine Learning},
    pages = {5678--5689},
    year = {2023},
    publisher = {PMLR},
    url = {https://proceedings.mlr.press/v180/williams23a.html}
}
"#;

/// A representative entry of one venue.
pub struct TestEntry {
    pub name: &'static str,
    pub venue: &'static str,
    pub content: &'static str,
    pub approx_size: usize,
    pub field_count: usize,
}

pub const NEURIPS_2024: &'static str = r#"@inproceedings{sun2024attributing,
    author = {Sun, Yifan and Shen, Jingyan and Kwon, Yongchan},
    booktitle = neurips,
    editor = {A. Globerson and L. Mackey and D. Belgrave and A. Fan and U. Paquet and J. Tomczak and C. Zhang},
    pages = {46764--46790},
    publisher = curran,
    title = {2D-OOB: Attributing Data Contribution Through Joint Valuation Framework},
    url = {https://proceedings.neurips.cc/paper_files/paper/2024/file/531998dc1fc858b5857a90b74d96ecab-Paper-Conference.pdf},
    volume = {37},
    year = {2024}
}"#;

pub const ICML_2021: &'static str = r#"@inproceedings{acar2021debiasing,
    address = {Virtual Event},
    author = {Acar, Durmus Alp Emre and Zhao, Yue and Zhu, Ruizhao and Navarro, Ramon Matas and Mattina, Matthew and Whatmough, Paul N. and Saligrama, Venkatesh},
    booktitle = {Proceedings of the 38th International Conference on Machine Learning (ICML)},
    editor = {Meila, Marina and Zhang, Tong},
    month = {July},
    note = {\url{http://proceedings.mlr.press/v139/acar21a.html}},
    pages = {21--31},
    publisher = pmlr,
    series = pmlr,
    title = {Debiasing Model Updates for Improving Personalized Federated Training},
    volume = {139},
    year = {2021}
}"#;

pub const PHYS_REV_2024: &'static str = r#"@article{li2024anomalous,
    author = {Li, Shuai and Liu, Min and Zhang, Yue and Tian, Rui and Arzamasovs, Maksims and Liu, Bo},
    doi = {10.1103/PhysRevA.110.042208},
    issue = {4},
    journal = {Phys. Rev. A},
    month = {Oct},
    numpages = {6},
    openalex = {W4403204543},
    pages = {042208},
    publisher = aps,
    title = {Anomalous symmetry-protected blockade of the skin effect in one-dimensional non-Hermitian lattice systems},
    url = {https://link.aps.org/doi/10.1103/PhysRevA.110.042208},
    volume = {110},
    year = {2024}
}"#;

pub const NEURAL_COMP_2023: &'static str = r#"@article{radulescu2023synchronization,
    author = {RÇdulescu, Anca and Evans, Danae and Augustin, Amani-Dasia and Cooper, Anthony and Nakuci, Johan and Muldoon, Sarah},
    doi = {10.1162/neco_a_01624},
    eprint = {https://direct.mit.edu/neco/article-pdf/36/1/75/2195597/neco_a_01624.pdf},
    issn = {0899-7667},
    journal = {Neural Computation},
    month = {12},
    number = {1},
    pages = {75-106},
    title = {Synchronization and Clustering in Complex Quadratic Networks},
    url = {https://doi.org/10.1162/neco_a_01624},
    volume = {36},
    year = {2023}
}"#;

pub const ANNUAL_REVIEW_2024: &'static str = r#"@article{bianchi2024relational,
    abstract = {Advances in information technology have increased the availability of time-stamped relational data, such as those produced by email exchanges or interaction through social media. Whereas the associated information flows could be aggregated into cross-sectional panels, the temporal ordering of the events frequently contains information that requires new models for the analysis of continuous-time interactions, subject to both endogenous and exogenous influences. The introduction of the relational event model (REM) has been a major development that has stimulated new questions and led to further methodological developments. In this review, we track the intellectual history of the REM, define its core properties, and discuss why and how it has been considered useful in empirical research. We describe how the demands of novel applications have stimulated methodological, computational, and inferential advancements.},
    author = {Bianchi, Federica and Filippi-Mazzola, Edoardo and Lomi, Alessandro and Wit, Ernst C.},
    doi = {https://doi.org/10.1146/annurev-statistics-040722-060248},
    issn = {2326-831X},
    journal = {Annual Review of Statistics and Its Application},
    keywords = {social network analysis},
    number = {Volume 11, 2024},
    pages = {297-319},
    publisher = annrev,
    title = {Relational Event Modeling},
    type = {Journal Article},
    url = {https://www.annualreviews.org/content/journals/10.1146/annurev-statistics-040722-060248},
    volume = {11},
    year = {2024}
}"#;

pub const PMLR_2023: &'static str = r#"@InProceedings{mundt2023continual,
    title = {Continual Causality: A Retrospective of the Inaugural AAAI-23 Bridge Program},
    author = {Mundt, Martin and Cooper, Keiland W. and Dhami, Devendra Singh and Ribeiro, Ad\'ele and Smith, James Seale and Bellot, Alexis and Hayes, Tyler},
    booktitle = {Proceedings of The First AAAI Bridge Program on Continual Causality},
    pages = {1--10},
    year = {2023},
    editor = {Mundt, Martin and Cooper, Keiland W. and Dhami, Devendra Singh and Ribeiro, AdÃ©le and Smith, James Seale and Bellot, Alexis and Hayes, Tyler},
    volume = {208},
    series = pmlr,
    month = {07--08 Feb},
    publisher = pmlr,
    pdf = {https://proceedings.mlr.press/v208/mundt23a/mundt23a.pdf},
    url = {https://proceedings.mlr.press/v208/mundt23a.html},
    abstract = {Both of the fields of continual learning and causality investigate complementary aspects of human cognition and are fundamental components of artificial intelligence if it is to reason and generalize in complex environments. Despite the burgeoning interest in investigating the intersection of the two fields, it is currently unclear how causal models may describe continuous streams of data and vice versa, how continual learning may exploit learned causal structure. We proposed to bridge this gap through the inaugural AAAI-23 "Continual Causality" bridge program, where our aim was to take the initial steps towards a unified treatment of these fields by providing a space for learning, discussions, and to build a diverse community to connect researchers. The activities ranged from traditional tutorials and software labs, invited vision talks, and contributed talks based on submitted position papers, as well as a panel and breakout discussions. Whereas materials are publicly disseminated as a foundation for the community: https://www.continualcausality.org, respectively discussed ideas, challenges, and prospects beyond the inaugural bridge are summarized in this retrospective paper.}
}"#;

/// How many venue entries there are.
pub const VENUES: usize = 6;

/// The entry of the venue with the given number.
pub open spec fn venue_content(i: int) -> Seq<char> {
    if i == 0 {
        NEURIPS_2024@
    } else if i == 1 {
        ICML_2021@
    } else if i == 2 {
        PHYS_REV_2024@
    } else if i == 3 {
        NEURAL_COMP_2023@
    } else if i == 4 {
        ANNUAL_REVIEW_2024@
    } else {
        PMLR_2023@
    }
}

/// The approximate size in bytes of the entry of the venue with the given number.
pub open spec fn venue_size(i: int) -> int {
    if i == 0 {
        520
    } else if i == 1 {
        640
    } else if i == 2 {
        590
    } else if i == 3 {
        580
    } else if i == 4 {
        1400
    } else {
        1700
    }
}

/// The entry of the venue with the given number, with what is known of it.
pub open spec fn venue_entry(i: int) -> TestEntry {
    if i == 0 {
        TestEntry {
            name: "neurips_2024",
            venue: "NeurIPS",
            content: NEURIPS_2024,
            approx_size: 520,
            field_count: 9,
        }
    } else if i == 1 {
        TestEntry {
            name: "icml_2021",
            venue: "ICML",
            content: ICML_2021,
            approx_size: 640,
            field_count: 12,
        }
    } else if i == 2 {
        TestEntry {
            name: "phys_rev_2024",
            venue: "Physical Review A",
            content: PHYS_REV_2024,
            approx_size: 590,
            field_count: 12,
        }
    } else if i == 3 {
        TestEntry {
            name: "neural_comp_2023",
            venue: "Neural Computation",
            content: NEURAL_COMP_2023,
            approx_size: 580,
            field_count: 11,
        }
    } else if i == 4 {
        TestEntry {
            name: "annual_review_2024",
            venue: "Annual Review of Statistics",
            content: ANNUAL_REVIEW_2024,
            approx_size: 1400,
            field_count: 12,
        }
    } else {
        TestEntry {
            name: "pmlr_2023",
            venue: "PMLR",
            content: PMLR_2023,
            approx_size: 1700,
            field_count: 13,
        }
    }
}

/// Representative entries from different venues.
pub fn venue_entries() -> (r: Vec<TestEntry>)
    ensures
        r@.len() == VENUES,
        forall|i: int| 0 <= i < VENUES ==> #[trigger] r@[i] == venue_entry(i),
        forall|i: int|
            0 <= i < VENUES ==> (#[trigger] r@[i]).content@ == venue_content(i) && r@[i].approx_size
                == venue_size(i),
{
    let mut r: Vec<TestEntry> = Vec::new();
    r.push(
        TestEntry {
            name: "neurips_2024",
            venue: "NeurIPS",
            content: NEURIPS_2024,
            approx_size: 520,
            field_count: 9,
        },
    );
    r.push(
        TestEntry {
            name: "icml_2021",
            venue: "ICML",
            content: ICML_2021,
            approx_size: 640,
            field_count: 12,
        },
    );
    r.push(
        TestEntry {
            name: "phys_rev_2024",
            venue: "Physical Review A",
            content: PHYS_REV_2024,
            approx_size: 590,
            field_count: 12,
        },
    );
    r.push(
        TestEntry {
            name: "neural_comp_2023",
            venue: "Neural Computation",
            content: NEURAL_COMP_2023,
            approx_size: 580,
            field_count: 11,
        },
    );
    r.push(
        TestEntry {
            name: "annual_review_2024",
            venue: "Annual Review of Statistics",
            content: ANNUAL_REVIEW_2024,
            approx_size: 1400,
            field_count: 12,
        },
    );
    r.push(
        TestEntry {
            name: "pmlr_2023",
            venue: "PMLR",
            content: PMLR_2023,
            approx_size: 1700,
            field_count: 13,
        },
    );
    r
}

/// Does `from` occur in `s` at position `pos`? The empty text occurs nowhere.
pub open spec fn occurs(s: Seq<char>, from: Seq<char>, pos: int) -> bool {
    from.len() > 0 && 0 <= pos && pos + from.len() <= s.len() && s.subrange(
        pos,
        pos + from.len(),
    ) == from
}

/// The text `s` from `pos` on with occurrences of `from` replaced by `to`,
/// from left to right and without overlap: all of them when `limit` is
/// `None`, else at most that many.
pub open spec fn replaced(
    s: Seq<char>,
    from: Seq<char>,
    to: Seq<char>,
    pos: int,
    limit: Option<nat>,
) -> Seq<char>
    decreases s.len() - pos,
{
    if pos < 0 || pos >= s.len() {
        Seq::empty()
    } else if limit != Some(0nat) && occurs(s, from, pos) {
        to + replaced(
            s,
            from,
            to,
            pos + from.len(),
            match limit {
                Some(n) => Some((n - 1) as nat),
                None => None,
            },
        )
    } else {
        seq![s[pos]] + replaced(s, from, to, pos + 1, limit)
    }
}

/// The characters of a text.
pub fn to_chars(s: &str) -> (r: Vec<char>)
    ensures
        r@ == s@,
{
    let mut out: Vec<char> = Vec::new();
    let mut it = s.chars();
    let ghost mut n: nat = 0;
    assert(out@ =~= s@.subrange(0, 0));
    loop
        invariant
            n <= s@.len(),
            it.remaining() == s@.subrange(n as int, s@.len() as int),
            out@ == s@.subrange(0, n as int),
            it.obeys_prophetic_iter_laws(),
            it.decrease() is Some,
        decreases it.decrease()->0,
    {
        broadcast use {vstd::string::axiom_spec_iter, vstd::string::next_postcondition};

        match it.next() {
            Some(c) => {
                out.push(c);
                proof {
                    n = n + 1;
                    assert(out@ =~= s@.subrange(0, n as int));
                }
            },
            None => {
                assert(s@.subrange(0, n as int) =~= s@);
                return out;
            },
        }
    }
}

/// The text made of the given characters.
pub fn from_chars(chars: &Vec<char>) -> (r: String)
    ensures
        r@ == chars@,
{
    let mut out = String::new();
    let mut i: usize = 0;
    assert(out@ =~= chars@.subrange(0, 0));
    while i < chars.len()
        invariant
            i <= chars.len(),
            out@ == chars@.subrange(0, i as int),
        decreases chars.len() - i,
    {
        push_char(&mut out, chars[i]);
        assert(out@ =~= chars@.subrange(0, i + 1));
        i += 1;
    }
    assert(chars@.subrange(0, chars@.len() as int) =~= chars@);
    out
}

/// Does `from` occur in `s` at position `pos`?
fn occurs_here(s: &Vec<char>, from: &Vec<char>, pos: usize) -> (r: bool)
    requires
        pos <= s@.len(),
    ensures
        r == occurs(s@, from@, pos as int),
{
    if from.len() == 0 || from.len() > s.len() - pos {
        return false;
    }
    let limit = s.len();
    let mut k: usize = 0;
    while k < from.len()
        invariant
            k <= from.len(),
            limit == s@.len(),
            pos + from@.len() <= s@.len(),
            forall|j: int| 0 <= j < k ==> s@[pos + j] == from@[j],
        decreases from.len() - k,
    {
        if s[pos + k] != from[k] {
            assert(s@.subrange(pos as int, pos + from@.len())[k as int] != from@[k as int]);
            return false;
        }
        k += 1;
    }
    assert(s@.subrange(pos as int, pos + from@.len()) =~= from@);
    true
}

/// Replaces occurrences of `from` in `s` by `to`: all of them, or at most `limit`.
pub fn replace_chars(s: &Vec<char>, from: &Vec<char>, to: &Vec<char>, limit: Option<usize>) -> (r:
    Vec<char>)
    ensures
        r@ == replaced(
            s@,
            from@,
            to@,
            0,
            match limit {
                Some(n) => Some(n as nat),
                None => None,
            },
        ),
{
    let ghost want = replaced(
        s@,
        from@,
        to@,
        0,
        match limit {
            Some(n) => Some(n as nat),
            None => None,
        },
    );
    let mut out: Vec<char> = Vec::new();
    let mut left = limit;
    let mut pos: usize = 0;
    assert(out@ + want =~= want);
    while pos < s.len()
        invariant
            pos <= s.len(),
            out@ + replaced(
                s@,
                from@,
                to@,
                pos as int,
                match left {
                    Some(n) => Some(n as nat),
                    None => None,
                },
            ) == want,
        decreases s.len() - pos,
    {
        let ghost before = out@;
        let ghost rest = replaced(
            s@,
            from@,
            to@,
            pos as int,
            match left {
                Some(n) => Some(n as nat),
                None => None,
            },
        );
        let allowed = match left {
            Some(n) => n > 0,
            None => true,
        };
        if allowed && occurs_here(s, from, pos) {
            let mut k: usize = 0;
            while k < to.len()
                invariant
                    k <= to.len(),
                    out@ == before + to@.subrange(0, k as int),
                decreases to.len() - k,
            {
                out.push(to[k]);
                assert(out@ =~= before + to@.subrange(0, k + 1));
                k += 1;
            }
            assert(to@.subrange(0, to@.len() as int) =~= to@);
            left = match left {
                Some(n) => Some(n - 1),
                None => None,
            };
            pos += from.len();
            proof {
                let after = replaced(
                    s@,
                    from@,
                    to@,
                    pos as int,
                    match left {
                        Some(n) => Some(n as nat),
                        None => None,
                    },
                );
                assert(rest == to@ + after);
                assert((before + to@) + after =~= before + (to@ + after));
            }
        } else {
            out.push(s[pos]);
            pos += 1;
            proof {
                let after = replaced(
                    s@,
                    from@,
                    to@,
                    pos as int,
                    match left {
                        Some(n) => Some(n as nat),
                        None => None,
                    },
                );
                assert(rest == seq![s@[pos - 1]] + after);
                assert(before.push(s@[pos - 1]) + after =~= before + (seq![s@[pos - 1]] + after));
            }
        }
    }
    assert(out@ + Seq::<char>::empty() =~= out@);
    out
}

/// The first position before `end` at which `s` holds `c`.
pub open spec fn index_of(s: Seq<char>, c: char, from: int, end: int) -> Option<int>
    decreases end - from,
{
    if from < 0 || from >= end || from >= s.len() {
        None
    } else if s[from] == c {
        Some(from)
    } else {
        index_of(s, c, from + 1, end)
    }
}

/// Finds the first `c` in `s[..end]`.
fn find_char(s: &Vec<char>, c: char, end: usize) -> (r: Option<usize>)
    requires
        end <= s@.len(),
    ensures
        match r {
            Some(i) => index_of(s@, c, 0, end as int) == Some(i as int) && i < end,
            None => index_of(s@, c, 0, end as int) is None,
        },
{
    let mut i: usize = 0;
    while i < end
        invariant
            i <= end <= s@.len(),
            index_of(s@, c, 0, end as int) == index_of(s@, c, i as int, end as int),
        decreases end - i,
    {
        if s[i] == c {
            return Some(i);
        }
        i += 1;
    }
    None
}

/// The end of the first line of `s`: the position of its first line feed, or its length.
pub open spec fn first_line_end(s: Seq<char>) -> int {
    match index_of(s, '\n', 0, s.len() as int) {
        Some(i) => i,
        None => s.len() as int,
    }
}

/// The entry `s` with its citation key replaced by `key`. The citation key
/// is what stands between the first `{` and the first `,` of the first
/// line; its first occurrence in the entry is replaced. An entry whose first
/// line has no key is left as it is.
pub open spec fn rekeyed(s: Seq<char>, key: Seq<char>) -> Seq<char> {
    let end = first_line_end(s);
    match (index_of(s, '{', 0, end), index_of(s, ',', 0, end)) {
        (Some(open), Some(comma)) => if open < comma {
            replaced(s, s.subrange(open + 1, comma), key, 0, Some(1nat))
        } else {
            s
        },
        _ => s,
    }
}

/// Gives an entry a new citation key. See [`rekeyed`].
pub fn rekey(s: &Vec<char>, key: &Vec<char>) -> (r: Vec<char>)
    ensures
        r@ == rekeyed(s@, key@),
{
    let end = match find_char(s, '\n', s.len()) {
        Some(i) => i,
        None => s.len(),
    };
    let open = find_char(s, '{', end);
    let comma = find_char(s, ',', end);
    match (open, comma) {
        (Some(open), Some(comma)) => {
            if open < comma {
                let mut old_key: Vec<char> = Vec::new();
                let mut i: usize = open + 1;
                assert(old_key@ =~= s@.subrange(open + 1, open + 1));
                while i < comma
                    invariant
                        open + 1 <= i <= comma <= s@.len(),
                        old_key@ == s@.subrange(open + 1, i as int),
                    decreases comma - i,
                {
                    old_key.push(s[i]);
                    assert(old_key@ =~= s@.subrange(open + 1, i + 1));
                    i += 1;
                }
                replace_chars(s, &old_key, key, Some(1))
            } else {
                copy_chars(s)
            }
        },
        _ => copy_chars(s),
    }
}

/// A copy of the characters.
fn copy_chars(s: &Vec<char>) -> (r: Vec<char>)
    ensures
        r@ == s@,
{
    let mut out: Vec<char> = Vec::new();
    let mut i: usize = 0;
    while i < s.len()
        invariant
            i <= s.len(),
            out@ == s@.subrange(0, i as int),
        decreases s.len() - i,
    {
        out.push(s[i]);
        assert(out@ =~= s@.subrange(0, i + 1));
        i += 1;
    }
    assert(s@.subrange(0, s@.len() as int) =~= s@);
    out
}

/// All occurrences of `from` in `s` replaced by `to`.
pub open spec fn swapped(s: Seq<char>, from: Seq<char>, to: Seq<char>) -> Seq<char> {
    replaced(s, from, to, 0, None)
}

/// The entry number `i` of a generated file: the entry of venue `i mod 6`
/// with its years, volume and pages varied by `i`, and the citation key
/// `entry<i>`.
pub open spec fn generated_entry(i: nat) -> Seq<char> {
    let shift = i % 5;
    let base = venue_content((i % 6) as int);
    let a = swapped(base, "2024"@, decimal(2020 + shift));
    let b = swapped(a, "2023"@, decimal(2019 + shift));
    let c = swapped(b, "2021"@, decimal(2018 + shift));
    let d = swapped(c, "Volume 11"@, "Volume "@ + decimal(10 + shift));
    let e = swapped(d, "volume = {37}"@, "volume = {"@ + decimal(35 + shift) + "}"@);
    let f = swapped(
        e,
        "pages = {1--10}"@,
        "pages = {"@ + decimal(i * 10 + 1) + "--"@ + decimal(i * 10 + 10) + "}"@,
    );
    rekeyed(f, "entry"@ + decimal(i))
}

/// The first `n` generated entries, two line feeds after each.
pub open spec fn generated_entries(n: nat) -> Seq<char>
    decreases n,
{
    if n == 0 {
        Seq::empty()
    } else {
        generated_entries((n - 1) as nat) + generated_entry((n - 1) as nat) + seq!['\n', '\n']
    }
}

/// A generated file of `n` entries: the common strings, a line feed, and the entries.
pub open spec fn generated(n: nat) -> Seq<char> {
    COMMON_STRINGS@ + seq!['\n'] + generated_entries(n)
}

/// The content of the venue entry with the given number.
fn venue_text(i: usize) -> (r: &'static str)
    requires
        i < VENUES,
    ensures
        r@ == venue_content(i as int),
{
    if i == 0 {
        NEURIPS_2024
    } else if i == 1 {
        ICML_2021
    } else if i == 2 {
        PHYS_REV_2024
    } else if i == 3 {
        NEURAL_COMP_2023
    } else if i == 4 {
        ANNUAL_REVIEW_2024
    } else {
        PMLR_2023
    }
}

/// Replaces in `s` every `from` by `prefix`, the decimal form of `n`, and `suffix`.
fn swap_number(s: &Vec<char>, from: &str, prefix: &str, n: u128, suffix: &str) -> (r: Vec<char>)
    ensures
        r@ == swapped(s@, from@, prefix@ + decimal(n as nat) + suffix@),
{
    let mut to = String::new();
    to.append(prefix);
    push_decimal(&mut to, n);
    to.append(suffix);
    assert(to@ =~= prefix@ + decimal(n as nat) + suffix@);
    replace_chars(s, &to_chars(from), &to_chars(to.as_str()), None)
}

/// Generates the entry number `i` of a generated file.
fn generate_entry(i: usize) -> (r: Vec<char>)
    ensures
        r@ == generated_entry(i as nat),
{
    let shift = (i % 5) as u128;
    let base = to_chars(venue_text(i % 6));
    let a = swap_number(&base, "2024", "", 2020 + shift, "");
    let b = swap_number(&a, "2023", "", 2019 + shift, "");
    let c = swap_number(&b, "2021", "", 2018 + shift, "");
    let d = swap_number(&c, "Volume 11", "Volume ", 10 + shift, "");
    let e = swap_number(&d, "volume = {37}", "volume = {", 35 + shift, "}");
    let mut pages = String::new();
    pages.append("pages = {");
    push_decimal(&mut pages, (i as u128) * 10 + 1);
    pages.append("--");
    push_decimal(&mut pages, (i as u128) * 10 + 10);
    pages.append("}");
    let f = replace_chars(&e, &to_chars("pages = {1--10}"), &to_chars(pages.as_str()), None);
    let mut key = String::new();
    key.append("entry");
    push_decimal(&mut key, i as u128);
    proof {
        reveal_strlit("");
        assert(""@ + decimal((2020 + shift) as nat) + ""@ =~= decimal((2020 + shift) as nat));
        assert(""@ + decimal((2019 + shift) as nat) + ""@ =~= decimal((2019 + shift) as nat));
        assert(""@ + decimal((2018 + shift) as nat) + ""@ =~= decimal((2018 + shift) as nat));
        assert("Volume "@ + decimal((10 + shift) as nat) + ""@ =~= "Volume "@ + decimal(
            (10 + shift) as nat,
        ));
        assert(pages@ =~= "pages = {"@ + decimal((i * 10 + 1) as nat) + "--"@ + decimal(
            (i * 10 + 10) as nat,
        ) + "}"@);
        assert(key@ =~= "entry"@ + decimal(i as nat));
    }
    rekey(&f, &to_chars(key.as_str()))
}

/// Generate a realistic BibTeX file with `n_entries` entries.
pub fn generate_realistic_bibtex(n_entries: usize) -> (r: String)
    ensures
        r@ == generated(n_entries as nat),
{
    let mut bib = String::new();
    bib.append(COMMON_STRINGS);
    proof {
        reveal_strlit("\n");
        reveal_strlit("\n\n");
    }
    bib.append("\n");
    let ghost head = bib@;
    let mut i: usize = 0;
    assert(bib@ + Seq::<char>::empty() =~= bib@);
    while i < n_entries
        invariant
            i <= n_entries,
            head == COMMON_STRINGS@ + seq!['\n'],
            bib@ == head + generated_entries(i as nat),
        decreases n_entries - i,
    {
        proof {
            reveal_strlit("\n\n");
        }
        let entry = from_chars(&generate_entry(i));
        bib.append(entry.as_str());
        bib.append("\n\n");
        assert(bib@ =~= head + generated_entries((i + 1) as nat));
        i += 1;
    }
    bib
}

/// Get average bytes per entry for realistic data.
pub fn average_bytes_per_entry() -> (r: usize)
    ensures
        r == 905,
{
    let entries = venue_entries();
    let mut total: usize = 0;
    let mut i: usize = 0;
    while i < entries.len()
        invariant
            i <= entries.len(),
            entries@.len() == VENUES,
            forall|k: int| 0 <= k < VENUES ==> (#[trigger] entries@[k]).approx_size == venue_size(k),
            total == (if i == 0 {
                0int
            } else if i == 1 {
                520
            } else if i == 2 {
                1160
            } else if i == 3 {
                1750
            } else if i == 4 {
                2330
            } else if i == 5 {
                3730
            } else {
                5430
            }),
        decreases entries.len() - i,
    {
        total = total + entries[i].approx_size;
        i += 1;
    }
    total / entries.len()
}

/// Create a small test file for unit tests.
pub fn small_test_file() -> (r: &'static str)
    ensures
        r@ == SMALL_TEST_FILE@,
{
    SMALL_TEST_FILE
}

} // verus!
