use vstd::prelude::*;
use crate::carbon::{Carbon, expand_ok, expansion_of, expand_err};
use crate::document::{ServiceData, DocView, views_of, docs_of, configs_ok, parse_configs};
use crate::error::CarbonError;
use crate::environment::{parse_variables, root_placeholder};
use crate::strings::{
    spec_replace, spec_join, replace_all, join_text, str_chars_vec, chars_to_string,
};

verus! {

/// The fixed schema header every generated deployment file starts with.
pub open spec fn compose_header() -> Seq<char> {
    "\nversion: '3.8'\n\nservices:\n"@
}

/// The text `s` with a four-space indent added after every newline.
pub open spec fn spec_indent_tail(s: Seq<char>) -> Seq<char>
    decreases s.len(),
{
    if s.len() == 0 {
        Seq::empty()
    } else if s[0] == '\n' {
        seq!['\n', ' ', ' ', ' ', ' '] + spec_indent_tail(s.skip(1))
    } else {
        seq![s[0]] + spec_indent_tail(s.skip(1))
    }
}

/// The text `s` with every line, the first included, indented one level.
pub open spec fn spec_indent_text(s: Seq<char>) -> Seq<char> {
    seq![' ', ' ', ' ', ' '] + spec_indent_tail(s)
}

/// What merging produces: the schema header, then the given service
/// declarations with every line indented one level under `services:`.
pub open spec fn spec_merge_compose(services: Seq<char>) -> Seq<char> {
    compose_header() + spec_indent_text(services)
}

/// One document's text prepared for the shared file: every document
/// boundary artifact `---` removed.
pub open spec fn spec_clean_doc(s: Seq<char>) -> Seq<char> {
    spec_replace(s, "---"@, Seq::empty())
}

/// What assembling the resolved documents produces: their cleaned texts
/// joined by single newlines, merged under the schema header.
pub open spec fn spec_build_compose(ds: Seq<DocView>) -> Seq<char> {
    spec_merge_compose(spec_join(ds.map_values(|d: DocView| spec_clean_doc(d.yaml)), seq!['\n']))
}

/// Merge service declarations into the main structure of a deployment
/// file, indenting everything that needs indenting.
fn merge_compose_file(services: &str) -> (r: String)
    ensures
        r@ == spec_merge_compose(services@),
{
    let sv = str_chars_vec(services);
    let sn = sv.len();
    let mut out: Vec<char> = str_chars_vec("\nversion: '3.8'\n\nservices:\n");
    proof {
        assert(out@ == compose_header());
    }
    out.push(' ');
    out.push(' ');
    out.push(' ');
    out.push(' ');
    let mut i: usize = 0;
    proof {
        assert(sv@.skip(0) =~= sv@);
        assert(out@ =~= compose_header() + seq![' ', ' ', ' ', ' ']);
        assert(out@ + spec_indent_tail(sv@) =~= compose_header() + spec_indent_text(sv@));
    }
    while i < sn
        invariant
            i <= sn,
            sn == sv@.len(),
            sv@ == services@,
            out@ + spec_indent_tail(services@.skip(i as int)) == compose_header()
                + spec_indent_text(services@),
        decreases sn - i,
    {
        let ghost rest = services@.skip(i as int);
        let ghost out0 = out@;
        let c = sv[i];
        out.push(c);
        if c == '\n' {
            out.push(' ');
            out.push(' ');
            out.push(' ');
            out.push(' ');
        }
        i = i + 1;
        proof {
            assert(rest[0] == services@[(i - 1) as int]);
            assert(rest.skip(1) =~= services@.skip(i as int));
            if rest[0] == '\n' {
                assert(spec_indent_tail(rest) == seq!['\n', ' ', ' ', ' ', ' ']
                    + spec_indent_tail(services@.skip(i as int)));
                assert(out@ =~= out0 + seq!['\n', ' ', ' ', ' ', ' ']);
                assert(out@ + spec_indent_tail(services@.skip(i as int)) =~= out0
                    + spec_indent_tail(rest));
            } else {
                assert(spec_indent_tail(rest) == seq![rest[0]] + spec_indent_tail(
                    services@.skip(i as int),
                ));
                assert(out@ =~= out0 + seq![rest[0]]);
                assert(out@ + spec_indent_tail(services@.skip(i as int)) =~= out0
                    + spec_indent_tail(rest));
            }
        }
    }
    proof {
        assert(services@.skip(services@.len() as int) =~= Seq::<char>::empty());
        assert(out@ + Seq::<char>::empty() =~= out@);
    }
    chars_to_string(&out)
}

/// Merge the resolved service documents into one deployment descriptor
/// and substitute the project-root placeholder: each document's text with
/// boundary artifacts stripped, joined under a shared `services` mapping
/// behind the fixed schema header, with every root placeholder replaced
/// by `root`.
pub fn assemble(resolved: &Vec<ServiceData>, root: &str) -> (r: String)
    ensures
        r@ == spec_replace(spec_build_compose(views_of(resolved@)), root_placeholder(), root@),
{
    let merged = merge_documents(resolved);
    parse_variables(merged.as_str(), root)
}

/// Merge the resolved service documents into one deployment descriptor:
/// each document's text with boundary artifacts stripped, joined under a
/// shared `services` mapping behind the fixed schema header.
pub fn merge_documents(resolved: &Vec<ServiceData>) -> (r: String)
    ensures
        r@ == spec_build_compose(views_of(resolved@)),
{
    proof {
        reveal_strlit("---");
        reveal_strlit("");
    }
    let rn = resolved.len();
    let mut cleaned: Vec<String> = Vec::new();
    let ghost cleaned_spec = views_of(resolved@).map_values(|d: DocView| spec_clean_doc(d.yaml));
    let mut i: usize = 0;
    proof {
        assert(views_of(resolved@).len() == resolved@.len());
        assert(cleaned.deep_view() =~= cleaned_spec.take(0));
    }
    while i < rn
        invariant
            i <= rn,
            rn == resolved@.len(),
            views_of(resolved@).len() == resolved@.len(),
            cleaned_spec == views_of(resolved@).map_values(
                |d: DocView| spec_clean_doc(d.yaml),
            ),
            cleaned_spec.len() == resolved@.len(),
            cleaned.deep_view() == cleaned_spec.take(i as int),
        decreases rn - i,
    {
        proof {
            reveal_strlit("---");
            reveal_strlit("");
        }
        let ghost c0 = cleaned.deep_view();
        let piece = replace_all(resolved[i].yaml.as_str(), "---", "");
        cleaned.push(piece);
        i = i + 1;
        proof {
            assert(("")@ =~= Seq::<char>::empty());
            assert(piece@ == spec_clean_doc(views_of(resolved@)[(i - 1) as int].yaml));
            assert(cleaned.deep_view() =~= c0.push(cleaned_spec[(i - 1) as int]));
            assert(cleaned.deep_view() =~= cleaned_spec.take(i as int));
        }
    }
    proof {
        assert(cleaned_spec.take(rn as int) =~= cleaned_spec);
    }
    let joined = join_text(&cleaned, "\n");
    proof {
        reveal_strlit("\n");
        assert(("\n")@ =~= seq!['\n']);
    }
    merge_compose_file(joined.as_str())
}

/// Build a new deployment file by combining the descriptor documents of
/// the provided services, and of everything they depend on, into one
/// file, making sure to indent everything properly.
pub fn build_compose_file(services: &Vec<String>, configs: &Vec<(String, String)>) -> (r: Result<
    String,
    CarbonError,
>)
    ensures
        r is Ok <==> (configs_ok(configs.deep_view()) && expand_ok(
            docs_of(configs.deep_view()),
            services.deep_view(),
        )),
        r matches Ok(s) ==> exists|vs: Seq<DocView>|
            #[trigger] expansion_of(docs_of(configs.deep_view()), services.deep_view(), vs)
                && s@ == spec_build_compose(vs),
        r matches Err(e) ==> expand_err(configs.deep_view(), services.deep_view(), e),
{
    match Carbon::expand(services, configs) {
        Ok(resolved) => {
            let merged = merge_documents(&resolved);
            proof {
                assert(expansion_of(
                    docs_of(configs.deep_view()),
                    services.deep_view(),
                    views_of(resolved@),
                ) && merged@ == spec_build_compose(views_of(resolved@)));
            }
            Ok(merged)
        },
        Err(e) => Err(e),
    }
}

/// The names of all services the scanned descriptor files declare, in
/// scan order.
pub fn get_all_services(configs: &Vec<(String, String)>) -> (r: Result<Vec<String>, CarbonError>)
    ensures
        r is Ok <==> configs_ok(configs.deep_view()),
        r matches Ok(names) ==> names.deep_view() == docs_of(configs.deep_view()).map_values(
            |d: DocView| d.name,
        ),
        r matches Err(e) ==> (e matches CarbonError::MalformedService(p) && !configs_ok(
            configs.deep_view(),
        )),
{
    let parsed = match parse_configs(configs) {
        Ok(ds) => ds,
        Err(e) => {
            proof {
                let cs = configs.deep_view();
                let i = choose|i: int|
                    0 <= i < cs.len() && !crate::document::blob_ok((#[trigger] cs[i]).1);
            }
            return Err(e);
        },
    };
    let ghost docs = docs_of(configs.deep_view());
    let pn = parsed.len();
    let mut names: Vec<String> = Vec::new();
    let mut i: usize = 0;
    proof {
        assert(views_of(parsed@).len() == parsed@.len());
        assert(names.deep_view() =~= docs.map_values(|d: DocView| d.name).take(0));
    }
    while i < pn
        invariant
            i <= pn,
            pn == parsed@.len(),
            views_of(parsed@) == docs,
            views_of(parsed@).len() == parsed@.len(),
            names.deep_view() == docs.map_values(|d: DocView| d.name).take(i as int),
        decreases pn - i,
    {
        let ghost n0 = names.deep_view();
        names.push(parsed[i].name.clone());
        i = i + 1;
        proof {
            assert(names.deep_view() =~= n0.push(docs[(i - 1) as int].name));
            assert(names.deep_view() =~= docs.map_values(|d: DocView| d.name).take(i as int));
        }
    }
    proof {
        assert(docs.map_values(|d: DocView| d.name).take(pn as int) =~= docs.map_values(
            |d: DocView| d.name,
        ));
    }
    Ok(names)
}

} // verus!
