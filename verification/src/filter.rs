//! Favorite, ignore and color filters: regular expressions over channel fields.
use vstd::prelude::*;
use crate::chandir::{Channel, ChannelModel};
use crate::pattern::{regex_build, regex_is_match, Pattern};
use crate::text::{eq_str, lemma_push_distinct, push_char, push_str, to_chars};

verus! {

// ------------------------------------------------------------------ regular expressions

/// The characters that `regex::escape` puts a backslash before.
pub open spec fn is_meta(c: char) -> bool {
    c == '\\' || c == '.' || c == '+' || c == '*' || c == '?' || c == '(' || c == ')' || c == '|'
        || c == '[' || c == ']' || c == '{' || c == '}' || c == '^' || c == '$' || c == '#' || c
        == '&' || c == '-' || c == '~'
}

/// `regex::escape`: a backslash before each meta character.
pub open spec fn escape_spec(s: Seq<char>) -> Seq<char>
    decreases s.len(),
{
    if s.len() == 0 {
        seq![]
    } else {
        escape_spec(s.drop_last()) + if is_meta(s.last()) {
            seq!['\\', s.last()]
        } else {
            seq![s.last()]
        }
    }
}

/// `regex::escape`, which puts a backslash before each meta character.
#[verifier::external_body]
fn regex_escape(s: &str) -> (r: String)
    ensures
        r@ == escape_spec(s@),
{
    regex::escape(s)
}

// ------------------------------------------------------------------ filters

/// One condition: a regular expression and the fields it looks at.
#[derive(Clone, Debug, PartialEq)]
pub struct Search {
    pub enabled: bool,
    pub search: String,
    pub fields: Vec<String>,
}

impl Default for Search {
    fn default() -> (r: Search)
        ensures
            !r.enabled && r.search@.len() == 0 && r.fields@.len() == 0,
    {
        Search { enabled: false, search: String::new(), fields: Vec::new() }
    }
}

/// A filter: the base condition, an optional condition that must also hold, and one
/// that must not; what a hit means (favorite, ignore, notice, color).
#[derive(Clone, Debug, PartialEq)]
pub struct Filter {
    /// Name shown in lists (the search text when empty).
    pub name: String,
    pub enabled: bool,
    pub favorite: bool,
    pub ignore: bool,
    /// Tell when a matching channel starts.
    pub notify: bool,
    pub enable_color: bool,
    pub color: [u8; 3],
    pub ignore_case: bool,
    pub base_search: Search,
    pub and_search: Search,
    pub not_search: Search,
}

impl Default for Filter {
    fn default() -> (r: Filter)
        ensures
            r.name@.len() == 0,
            r.enabled && r.favorite && !r.ignore && r.notify && r.enable_color && r.ignore_case,
            r.color == [255u8, 230u8, 150u8],
            r.base_search.enabled && r.base_search.search@.len() == 0,
            r.base_search.fields@.len() == 1 && r.base_search.fields@[0]@ == "name"@,
            !r.and_search.enabled && r.and_search.search@.len() == 0
                && r.and_search.fields@.len() == 0,
            !r.not_search.enabled && r.not_search.search@.len() == 0
                && r.not_search.fields@.len() == 0,
    {
        let mut fields: Vec<String> = Vec::new();
        fields.push("name".to_string());
        Filter {
            name: String::new(),
            enabled: true,
            favorite: true,
            ignore: false,
            notify: true,
            enable_color: true,
            color: [255, 230, 150],
            ignore_case: true,
            base_search: Search { enabled: true, search: String::new(), fields },
            and_search: Search::default(),
            not_search: Search::default(),
        }
    }
}

/// The name shown for a filter: its name, or the base search when unnamed.
pub open spec fn title_spec(f: Filter) -> Seq<char> {
    if f.name@.len() == 0 {
        f.base_search.search@
    } else {
        f.name@
    }
}

impl Filter {
    /// The name shown for this filter.
    pub fn title(&self) -> (r: &str)
        ensures
            r@ == title_spec(*self),
    {
        if self.name.as_str().is_empty() {
            self.base_search.search.as_str()
        } else {
            self.name.as_str()
        }
    }

    /// A favorite (or, with `ignore`, an ignore filter) for exactly this channel name.
    pub fn exact_name(name: &str, ignore: bool) -> (r: Filter)
        ensures
            r.name@ == name@,
            r.enabled,
            r.favorite == !ignore && r.ignore == ignore,
            r.notify == !ignore && r.enable_color == !ignore,
            !r.ignore_case,
            r.color == [255u8, 230u8, 150u8],
            r.base_search.enabled,
            r.base_search.search@ == seq!['^'] + escape_spec(name@) + seq!['$'],
            r.base_search.fields@.len() == 1 && r.base_search.fields@[0]@ == "name"@,
            !r.and_search.enabled && r.and_search.search@.len() == 0
                && r.and_search.fields@.len() == 0,
            !r.not_search.enabled && r.not_search.search@.len() == 0
                && r.not_search.fields@.len() == 0,
    {
        let mut search = String::new();
        push_char(&mut search, '^');
        let esc = regex_escape(name);
        push_str(&mut search, esc.as_str());
        push_char(&mut search, '$');
        let d = Filter::default();
        let mut fields: Vec<String> = Vec::new();
        fields.push("name".to_string());
        Filter {
            name: name.to_string(),
            favorite: !ignore,
            ignore,
            notify: !ignore,
            enable_color: !ignore,
            ignore_case: false,
            base_search: Search { enabled: true, search, fields },
            ..d
        }
    }
}

/// `f` looks for exactly the channel name `name`: its base condition searches the
/// name field alone for the whole escaped name, as [`Filter::exact_name`] makes it.
pub open spec fn picks_exactly(f: Filter, name: Seq<char>) -> bool {
    &&& f.base_search.search@ == seq!['^'] + escape_spec(name) + seq!['$']
    &&& f.base_search.fields@.len() == 1
    &&& f.base_search.fields@[0]@ == "name"@
}

/// The position of the first filter that looks for exactly the channel name `name`.
pub fn exact_filter_index(filters: &[Filter], name: &str) -> (r: Option<usize>)
    ensures
        match r {
            Some(i) => i < filters@.len() && picks_exactly(filters@[i as int], name@) && forall|j: int|
                0 <= j < i ==> !picks_exactly(#[trigger] filters@[j], name@),
            None => forall|j: int| 0 <= j < filters@.len() ==> !picks_exactly(#[trigger] filters@[j], name@),
        },
{
    let target = Filter::exact_name(name, false).base_search.search;
    let field = "name".to_string();
    let mut i: usize = 0;
    while i < filters.len()
        invariant
            i <= filters@.len(),
            target@ == seq!['^'] + escape_spec(name@) + seq!['$'],
            field@ == "name"@,
            forall|j: int| 0 <= j < i ==> !picks_exactly(#[trigger] filters@[j], name@),
        decreases filters@.len() - i,
    {
        let f = &filters[i];
        if f.base_search.search == target && f.base_search.fields.len() == 1 && f.base_search.fields[0] == field {
            return Some(i);
        }
        i += 1;
    }
    None
}

/// Removes the filter at `sel` from the list being edited; the selection stays at the
/// same place, or moves to the last filter when it was the last one (0 when none is
/// left).
pub fn remove_filter(filters: &mut Vec<Filter>, sel: usize) -> (r: usize)
    requires
        sel < old(filters)@.len(),
    ensures
        final(filters)@ == old(filters)@.remove(sel as int),
        r == (if sel < final(filters)@.len() {
            sel as int
        } else if final(filters)@.len() == 0 {
            0
        } else {
            final(filters)@.len() - 1
        }),
{
    filters.remove(sel);
    if sel < filters.len() {
        sel
    } else if filters.len() == 0 {
        0
    } else {
        filters.len() - 1
    }
}

/// Moves the filter at `sel` one place up (towards the start) or down, swapping it with
/// its neighbour; the selection follows it.
pub fn move_filter(filters: &mut Vec<Filter>, sel: usize, up: bool) -> (r: usize)
    requires
        up ==> 0 < sel < old(filters)@.len(),
        !up ==> sel + 1 < old(filters)@.len(),
    ensures
        r == (if up {
            sel - 1
        } else {
            sel + 1
        }),
        final(filters)@ == old(filters)@.update(sel as int, old(filters)@[r as int]).update(
            r as int,
            old(filters)@[sel as int],
        ),
{
    let n = filters.len();
    assert(n == old(filters)@.len());
    let other = if up {
        sel - 1
    } else {
        sel + 1
    };
    let ghost s0 = filters@;
    let f = filters.remove(sel);
    filters.insert(other, f);
    assert(filters@ =~= s0.update(sel as int, s0[other as int]).update(other as int, s0[sel as int]));
    other
}

/// The filters as they are saved.
#[derive(Clone, Debug, PartialEq)]
pub struct Filters(pub Vec<Filter>);

impl Default for Filters {
    fn default() -> (r: Filters)
        ensures
            r.0@.len() == 0,
    {
        Filters(Vec::new())
    }
}

// ------------------------------------------------------------------ compiled filters

/// A compiled condition, as the pattern it came from and the fields it looks at.
pub struct SearchModel {
    pub pattern: Seq<char>,
    pub ignore_case: bool,
    pub fields: Seq<Seq<char>>,
}

struct CompiledSearch {
    pat: Pattern,
    fields: Vec<String>,
}

pub open spec fn strings_view(v: Seq<String>) -> Seq<Seq<char>> {
    v.map_values(|s: String| s@)
}

impl CompiledSearch {
    closed spec fn model(&self) -> SearchModel {
        SearchModel { pattern: self.pat@.0, ignore_case: self.pat@.1, fields: strings_view(self.fields@) }
    }
}

/// A compiled filter, as the settings it came from.
pub struct CompiledFilterModel {
    pub index: usize,
    pub title: Seq<char>,
    pub favorite: bool,
    pub ignore: bool,
    pub notify: bool,
    pub color: Option<[u8; 3]>,
    pub base: SearchModel,
    pub and: Option<SearchModel>,
    pub not: Option<SearchModel>,
}

/// A filter that is ready to be matched.
pub struct CompiledFilter {
    /// Position in the list of filters it was compiled from
    pub index: usize,
    /// Name shown in lists (the filter's name, or its condition)
    pub title: String,
    pub favorite: bool,
    pub ignore: bool,
    pub notify: bool,
    pub color: Option<[u8; 3]>,
    base: CompiledSearch,
    and: Option<CompiledSearch>,
    not: Option<CompiledSearch>,
}

impl View for CompiledFilter {
    type V = CompiledFilterModel;

    closed spec fn view(&self) -> CompiledFilterModel {
        CompiledFilterModel {
            index: self.index,
            title: self.title@,
            favorite: self.favorite,
            ignore: self.ignore,
            notify: self.notify,
            color: self.color,
            base: self.base.model(),
            and: match self.and {
                Some(s) => Some(s.model()),
                None => None,
            },
            not: match self.not {
                Some(s) => Some(s.model()),
                None => None,
            },
        }
    }
}

impl CompiledFilter {
    /// The model of a compiled filter shows its plain fields as they are.
    proof fn lemma_view_fields(&self)
        ensures
            self@.index == self.index,
            self@.title == self.title@,
            self@.favorite == self.favorite,
            self@.ignore == self.ignore,
            self@.notify == self.notify,
            self@.color == self.color,
    {
    }
}

/// The condition that a [`Search`] compiles to: its pattern, and its fields (`name`
/// when none are given); the text of the error when the pattern does not compile.
pub open spec fn search_model_of(s: Search, ignore_case: bool) -> Result<SearchModel, Seq<char>> {
    match regex_build(s.search@, ignore_case) {
        Ok(()) => Ok(
            SearchModel {
                pattern: s.search@,
                ignore_case,
                fields: if s.fields@.len() == 0 {
                    seq!["name"@]
                } else {
                    strings_view(s.fields@)
                },
            },
        ),
        Err(e) => Err(e),
    }
}

fn compile_search(s: &Search, ignore_case: bool) -> (r: Result<CompiledSearch, String>)
    ensures
        match (r, search_model_of(*s, ignore_case)) {
            (Ok(c), Ok(m)) => c.model() == m,
            (Err(e), Err(m)) => e@ == m,
            _ => false,
        },
{
    let pat = match Pattern::compile(s.search.as_str(), ignore_case) {
        Ok(p) => p,
        Err(e) => {
            return Err(e);
        },
    };
    let fields = if s.fields.len() == 0 {
        let mut v: Vec<String> = Vec::new();
        v.push("name".to_string());
        assert(strings_view(v@) =~= seq!["name"@]);
        v
    } else {
        s.fields.clone()
    };
    proof {
        if s.fields@.len() != 0 {
            assert(strings_view(fields@) =~= strings_view(s.fields@));
        }
    }
    Ok(CompiledSearch { pat, fields })
}

/// What compiling the filter `f` (at position `index`) gives: nothing when it is off or
/// has no base search, else the compiled filter or the text of the first error.
pub open spec fn compile_one(f: Filter, index: usize) -> Option<Result<CompiledFilterModel, Seq<char>>> {
    if !f.enabled || f.base_search.search@.len() == 0 {
        None
    } else {
        match search_model_of(f.base_search, f.ignore_case) {
            Err(e) => Some(Err(e)),
            Ok(base) => {
                let and = if f.and_search.enabled {
                    Some(search_model_of(f.and_search, f.ignore_case))
                } else {
                    None
                };
                let not = if f.not_search.enabled {
                    Some(search_model_of(f.not_search, f.ignore_case))
                } else {
                    None
                };
                if let Some(Err(e)) = and {
                    Some(Err(e))
                } else if let Some(Err(e)) = not {
                    Some(Err(e))
                } else {
                    Some(
                        Ok(
                            CompiledFilterModel {
                                index,
                                title: title_spec(f),
                                favorite: f.favorite,
                                ignore: f.ignore,
                                notify: f.notify,
                                color: if f.enable_color {
                                    Some(f.color)
                                } else {
                                    None
                                },
                                base,
                                and: match and {
                                    Some(Ok(m)) => Some(m),
                                    _ => None,
                                },
                                not: match not {
                                    Some(Ok(m)) => Some(m),
                                    _ => None,
                                },
                            },
                        ),
                    )
                }
            },
        }
    }
}

/// The message for a filter that had to be switched off.
pub open spec fn disabled_msg(title: Seq<char>, e: Seq<char>) -> Seq<char> {
    "フィルター「"@ + title + "」を無効にしました: "@ + e
}

/// Compiling the first filters of a list: the compiled ones and the messages about
/// the ones that failed, in order.
pub open spec fn compile_spec(fs: Seq<Filter>) -> (Seq<CompiledFilterModel>, Seq<Seq<char>>)
    decreases fs.len(),
{
    if fs.len() == 0 {
        (seq![], seq![])
    } else {
        let (o, e) = compile_spec(fs.drop_last());
        match compile_one(fs.last(), (fs.len() - 1) as usize) {
            None => (o, e),
            Some(Ok(m)) => (o.push(m), e),
            Some(Err(msg)) => (o, e.push(disabled_msg(title_spec(fs.last()), msg))),
        }
    }
}

pub open spec fn compiled_models(v: Seq<CompiledFilter>) -> Seq<CompiledFilterModel> {
    v.map_values(|c: CompiledFilter| c@)
}

fn compile_filter(f: &Filter, index: usize) -> (r: Option<Result<CompiledFilter, String>>)
    ensures
        match (r, compile_one(*f, index)) {
            (None, None) => true,
            (Some(Ok(c)), Some(Ok(m))) => c@ == m,
            (Some(Err(e)), Some(Err(m))) => e@ == m,
            _ => false,
        },
{
    if !f.enabled || f.base_search.search.as_str().is_empty() {
        return None;
    }
    let base = match compile_search(&f.base_search, f.ignore_case) {
        Ok(b) => b,
        Err(e) => {
            return Some(Err(e));
        },
    };
    let and = if f.and_search.enabled {
        match compile_search(&f.and_search, f.ignore_case) {
            Ok(b) => Some(b),
            Err(e) => {
                return Some(Err(e));
            },
        }
    } else {
        None
    };
    let not = if f.not_search.enabled {
        match compile_search(&f.not_search, f.ignore_case) {
            Ok(b) => Some(b),
            Err(e) => {
                return Some(Err(e));
            },
        }
    } else {
        None
    };
    let color = if f.enable_color {
        Some(f.color)
    } else {
        None
    };
    let c = CompiledFilter {
        index,
        title: f.title().to_string(),
        favorite: f.favorite,
        ignore: f.ignore,
        notify: f.notify,
        color,
        base,
        and,
        not,
    };
    Some(Ok(c))
}

/// Compiles the enabled filters; the ones whose expressions fail are left out, with a
/// message each.
pub fn compile(filters: &[Filter]) -> (r: (Vec<CompiledFilter>, Vec<String>))
    ensures
        compiled_models(r.0@) == compile_spec(filters@).0,
        strings_view(r.1@) == compile_spec(filters@).1,
{
    let mut out: Vec<CompiledFilter> = Vec::new();
    let mut errors: Vec<String> = Vec::new();
    let mut i: usize = 0;
    assert(filters@.take(0) =~= Seq::<Filter>::empty());
    assert(compiled_models(out@) =~= Seq::<CompiledFilterModel>::empty());
    assert(strings_view(errors@) =~= Seq::<Seq<char>>::empty());
    while i < filters.len()
        invariant
            i <= filters@.len(),
            compiled_models(out@) == compile_spec(filters@.take(i as int)).0,
            strings_view(errors@) == compile_spec(filters@.take(i as int)).1,
        decreases filters@.len() - i,
    {
        let f = &filters[i];
        proof {
            assert(filters@.take(i + 1).drop_last() =~= filters@.take(i as int));
            assert(filters@.take(i + 1).last() == filters@[i as int]);
        }
        match compile_filter(f, i) {
            None => {},
            Some(Ok(c)) => {
                let ghost before = out@;
                out.push(c);
                assert(compiled_models(out@) =~= compiled_models(before).push(c@));
            },
            Some(Err(e)) => {
                let mut m = String::new();
                push_str(&mut m, "フィルター「");
                push_str(&mut m, f.title());
                push_str(&mut m, "」を無効にしました: ");
                push_str(&mut m, e.as_str());
                let ghost before = errors@;
                errors.push(m);
                assert(strings_view(errors@) =~= strings_view(before).push(m@));
            },
        }
        i += 1;
    }
    assert(filters@.take(filters@.len() as int) =~= filters@);
    (out, errors)
}

// ------------------------------------------------------------------ matching

/// The text of the field `name` of a channel listed by the YP `yp`; empty for an
/// unknown field.
pub open spec fn field_spec(c: ChannelModel, yp: Seq<char>, name: Seq<char>) -> Seq<char> {
    if name == "name"@ {
        c.name
    } else if name == "genre"@ {
        c.genre
    } else if name == "desc"@ {
        c.desc
    } else if name == "comment"@ {
        c.comment
    } else if name == "url"@ {
        c.url
    } else if name == "type"@ {
        c.content_type
    } else if name == "tip"@ {
        c.tip
    } else if name == "id"@ {
        c.id
    } else if name == "yp"@ {
        yp
    } else {
        seq![]
    }
}

fn field<'a>(c: &'a Channel, yp: &'a str, name: &str) -> (r: &'a str)
    ensures
        r@ == field_spec(c@, yp@, name@),
{
    let n = to_chars(name);
    if eq_str(&n, "name") {
        c.name.as_str()
    } else if eq_str(&n, "genre") {
        c.genre.as_str()
    } else if eq_str(&n, "desc") {
        c.desc.as_str()
    } else if eq_str(&n, "comment") {
        c.comment.as_str()
    } else if eq_str(&n, "url") {
        c.url.as_str()
    } else if eq_str(&n, "type") {
        c.content_type.as_str()
    } else if eq_str(&n, "tip") {
        c.tip.as_str()
    } else if eq_str(&n, "id") {
        c.id.as_str()
    } else if eq_str(&n, "yp") {
        yp
    } else {
        proof {
            reveal_strlit("");
        }
        ""
    }
}

/// The condition matches one of its fields.
pub open spec fn search_hits(s: SearchModel, c: ChannelModel, yp: Seq<char>) -> bool {
    exists|i: int|
        0 <= i < s.fields.len() && regex_is_match(
            s.pattern,
            s.ignore_case,
            field_spec(c, yp, #[trigger] s.fields[i]),
        )
}

/// A condition on one field looks at that field of the channel: `name`, `genre`,
/// `desc` (the description), `comment`, `url` (the contact URL), `type`, `tip`, `id`,
/// and `yp` (the name of the YP that lists it); it hits exactly when the expression
/// matches that text. A condition on several fields hits when one of them does.
pub proof fn law_search_fields(pattern: Seq<char>, ignore_case: bool, c: ChannelModel, yp: Seq<char>)
    ensures
        search_hits(SearchModel { pattern, ignore_case, fields: seq!["name"@] }, c, yp) == regex_is_match(
            pattern,
            ignore_case,
            c.name,
        ),
        search_hits(SearchModel { pattern, ignore_case, fields: seq!["genre"@] }, c, yp) == regex_is_match(
            pattern,
            ignore_case,
            c.genre,
        ),
        search_hits(SearchModel { pattern, ignore_case, fields: seq!["desc"@] }, c, yp) == regex_is_match(
            pattern,
            ignore_case,
            c.desc,
        ),
        search_hits(SearchModel { pattern, ignore_case, fields: seq!["comment"@] }, c, yp) == regex_is_match(
            pattern,
            ignore_case,
            c.comment,
        ),
        search_hits(SearchModel { pattern, ignore_case, fields: seq!["url"@] }, c, yp) == regex_is_match(
            pattern,
            ignore_case,
            c.url,
        ),
        search_hits(SearchModel { pattern, ignore_case, fields: seq!["type"@] }, c, yp) == regex_is_match(
            pattern,
            ignore_case,
            c.content_type,
        ),
        search_hits(SearchModel { pattern, ignore_case, fields: seq!["tip"@] }, c, yp) == regex_is_match(
            pattern,
            ignore_case,
            c.tip,
        ),
        search_hits(SearchModel { pattern, ignore_case, fields: seq!["id"@] }, c, yp) == regex_is_match(
            pattern,
            ignore_case,
            c.id,
        ),
        search_hits(SearchModel { pattern, ignore_case, fields: seq!["yp"@] }, c, yp) == regex_is_match(
            pattern,
            ignore_case,
            yp,
        ),
{
    reveal_strlit("name");
    reveal_strlit("genre");
    reveal_strlit("desc");
    reveal_strlit("comment");
    reveal_strlit("url");
    reveal_strlit("type");
    reveal_strlit("tip");
    reveal_strlit("id");
    reveal_strlit("yp");
    let s0 = SearchModel { pattern, ignore_case, fields: seq!["name"@] };
    assert(s0.fields[0] == "name"@);
    assert(field_spec(c, yp, s0.fields[0]) == c.name);
    if regex_is_match(pattern, ignore_case, c.name) {
        assert(search_hits(s0, c, yp));
    }
    let s1 = SearchModel { pattern, ignore_case, fields: seq!["genre"@] };
    assert(s1.fields[0] == "genre"@);
    assert(field_spec(c, yp, s1.fields[0]) == c.genre);
    if regex_is_match(pattern, ignore_case, c.genre) {
        assert(search_hits(s1, c, yp));
    }
    let s2 = SearchModel { pattern, ignore_case, fields: seq!["desc"@] };
    assert(s2.fields[0] == "desc"@);
    assert("desc"@[0] != "name"@[0]);
    assert(field_spec(c, yp, s2.fields[0]) == c.desc);
    if regex_is_match(pattern, ignore_case, c.desc) {
        assert(search_hits(s2, c, yp));
    }
    let s3 = SearchModel { pattern, ignore_case, fields: seq!["comment"@] };
    assert(s3.fields[0] == "comment"@);
    assert(field_spec(c, yp, s3.fields[0]) == c.comment);
    if regex_is_match(pattern, ignore_case, c.comment) {
        assert(search_hits(s3, c, yp));
    }
    let s4 = SearchModel { pattern, ignore_case, fields: seq!["url"@] };
    assert(s4.fields[0] == "url"@);
    assert(field_spec(c, yp, s4.fields[0]) == c.url);
    if regex_is_match(pattern, ignore_case, c.url) {
        assert(search_hits(s4, c, yp));
    }
    let s5 = SearchModel { pattern, ignore_case, fields: seq!["type"@] };
    assert(s5.fields[0] == "type"@);
    assert("type"@[0] != "name"@[0]);
    assert("type"@[0] != "desc"@[0]);
    assert(field_spec(c, yp, s5.fields[0]) == c.content_type);
    if regex_is_match(pattern, ignore_case, c.content_type) {
        assert(search_hits(s5, c, yp));
    }
    let s6 = SearchModel { pattern, ignore_case, fields: seq!["tip"@] };
    assert(s6.fields[0] == "tip"@);
    assert("tip"@[0] != "url"@[0]);
    assert(field_spec(c, yp, s6.fields[0]) == c.tip);
    if regex_is_match(pattern, ignore_case, c.tip) {
        assert(search_hits(s6, c, yp));
    }
    let s7 = SearchModel { pattern, ignore_case, fields: seq!["id"@] };
    assert(s7.fields[0] == "id"@);
    assert(field_spec(c, yp, s7.fields[0]) == c.id);
    if regex_is_match(pattern, ignore_case, c.id) {
        assert(search_hits(s7, c, yp));
    }
    let s8 = SearchModel { pattern, ignore_case, fields: seq!["yp"@] };
    assert(s8.fields[0] == "yp"@);
    assert("yp"@[0] != "id"@[0]);
    assert(field_spec(c, yp, s8.fields[0]) == yp);
    if regex_is_match(pattern, ignore_case, yp) {
        assert(search_hits(s8, c, yp));
    }
}

fn hit(s: &CompiledSearch, c: &Channel, yp: &str) -> (r: bool)
    ensures
        r == search_hits(s.model(), c@, yp@),
{
    let ghost m = s.model();
    let mut i: usize = 0;
    while i < s.fields.len()
        invariant
            i <= s.fields@.len(),
            m == s.model(),
            m.fields == strings_view(s.fields@),
            forall|j: int|
                0 <= j < i ==> !regex_is_match(
                    m.pattern,
                    m.ignore_case,
                    field_spec(c@, yp@, #[trigger] m.fields[j]),
                ),
        decreases s.fields@.len() - i,
    {
        let text = field(c, yp, s.fields[i].as_str());
        assert(m.fields[i as int] == s.fields@[i as int]@);
        if s.pat.is_match(text) {
            return true;
        }
        i += 1;
    }
    false
}

/// The filter matches: its base condition hits, the "and" condition (if any) hits,
/// the "not" condition (if any) does not.
pub open spec fn filter_hits(f: CompiledFilterModel, c: ChannelModel, yp: Seq<char>) -> bool {
    &&& search_hits(f.base, c, yp)
    &&& (f.and matches Some(s) ==> search_hits(s, c, yp))
    &&& (f.not matches Some(s) ==> !search_hits(s, c, yp))
}

impl CompiledFilter {
    /// Whether the channel `c` of the YP `yp` matches this filter.
    pub fn is_match(&self, c: &Channel, yp: &str) -> (r: bool)
        ensures
            r == filter_hits(self@, c@, yp@),
    {
        if !hit(&self.base, c, yp) {
            return false;
        }
        if let Some(s) = &self.and {
            if !hit(s, c, yp) {
                return false;
            }
        }
        if let Some(s) = &self.not {
            if hit(s, c, yp) {
                return false;
            }
        }
        true
    }
}

/// What the filters say about a channel.
#[derive(Clone, Debug, PartialEq)]
pub struct MatchResult {
    pub favorite: bool,
    pub ignore: bool,
    pub notify: bool,
    pub colors: Vec<[u8; 3]>,
    /// Names of the filters that matched
    pub names: Vec<String>,
    /// Positions (in the list of filters) of the favorite / ignore filters that matched
    pub favorite_filters: Vec<usize>,
    pub ignore_filters: Vec<usize>,
}

#[verifier::ext_equal]
pub struct MatchModel {
    pub favorite: bool,
    pub ignore: bool,
    pub notify: bool,
    pub colors: Seq<[u8; 3]>,
    pub names: Seq<Seq<char>>,
    pub favorite_filters: Seq<usize>,
    pub ignore_filters: Seq<usize>,
}

impl View for MatchResult {
    type V = MatchModel;

    open spec fn view(&self) -> MatchModel {
        MatchModel {
            favorite: self.favorite,
            ignore: self.ignore,
            notify: self.notify,
            colors: self.colors@,
            names: strings_view(self.names@),
            favorite_filters: self.favorite_filters@,
            ignore_filters: self.ignore_filters@,
        }
    }
}

impl Default for MatchResult {
    fn default() -> (r: MatchResult)
        ensures
            !r.favorite && !r.ignore && !r.notify,
            r.colors@.len() == 0 && r.names@.len() == 0,
            r.favorite_filters@.len() == 0 && r.ignore_filters@.len() == 0,
    {
        MatchResult {
            favorite: false,
            ignore: false,
            notify: false,
            colors: Vec::new(),
            names: Vec::new(),
            favorite_filters: Vec::new(),
            ignore_filters: Vec::new(),
        }
    }
}

/// Applying the filters `fs` in order: every matching filter adds its flags, its
/// color, its name (once), and its position to the favorite / ignore lists; a
/// notice is asked for by a matching favorite filter that notifies.
pub open spec fn apply_spec(fs: Seq<CompiledFilterModel>, c: ChannelModel, yp: Seq<char>) -> MatchModel
    decreases fs.len(),
{
    if fs.len() == 0 {
        MatchModel {
            favorite: false,
            ignore: false,
            notify: false,
            colors: seq![],
            names: seq![],
            favorite_filters: seq![],
            ignore_filters: seq![],
        }
    } else {
        let r = apply_spec(fs.drop_last(), c, yp);
        let f = fs.last();
        if filter_hits(f, c, yp) {
            MatchModel {
                favorite: r.favorite || f.favorite,
                ignore: r.ignore || f.ignore,
                notify: r.notify || (f.favorite && f.notify),
                colors: match f.color {
                    Some(col) => r.colors.push(col),
                    None => r.colors,
                },
                names: if r.names.contains(f.title) {
                    r.names
                } else {
                    r.names.push(f.title)
                },
                favorite_filters: if f.favorite {
                    r.favorite_filters.push(f.index)
                } else {
                    r.favorite_filters
                },
                ignore_filters: if f.ignore {
                    r.ignore_filters.push(f.index)
                } else {
                    r.ignore_filters
                },
            }
        } else {
            r
        }
    }
}

pub(crate) fn contains_string(v: &Vec<String>, s: &String) -> (r: bool)
    ensures
        r == strings_view(v@).contains(s@),
{
    let mut i: usize = 0;
    while i < v.len()
        invariant
            i <= v@.len(),
            forall|j: int| 0 <= j < i ==> v@[j]@ != s@,
        decreases v@.len() - i,
    {
        if v[i] == *s {
            assert(strings_view(v@)[i as int] == s@);
            return true;
        }
        i += 1;
    }
    assert forall|j: int| 0 <= j < strings_view(v@).len() implies strings_view(v@)[j] != s@ by {
        assert(strings_view(v@)[j] == v@[j]@);
    }
    false
}

/// Applies the compiled filters to a channel of the YP `yp`.
pub fn apply(filters: &[CompiledFilter], c: &Channel, yp: &str) -> (r: MatchResult)
    ensures
        r@ == apply_spec(compiled_models(filters@), c@, yp@),
{
    let mut r = MatchResult::default();
    let ghost fs = compiled_models(filters@);
    let mut i: usize = 0;
    assert(fs.take(0) =~= Seq::<CompiledFilterModel>::empty());
    assert(strings_view(r.names@) =~= Seq::<Seq<char>>::empty());
    assert(r@ =~= apply_spec(fs.take(0), c@, yp@));
    while i < filters.len()
        invariant
            i <= filters@.len(),
            fs == compiled_models(filters@),
            r@ == apply_spec(fs.take(i as int), c@, yp@),
        decreases filters@.len() - i,
    {
        let f = &filters[i];
        proof {
            assert(fs.take(i + 1).drop_last() =~= fs.take(i as int));
            assert(fs.take(i + 1).last() == f@);
            f.lemma_view_fields();
        }
        if f.is_match(c, yp) {
            r.favorite = r.favorite || f.favorite;
            r.ignore = r.ignore || f.ignore;
            r.notify = r.notify || (f.favorite && f.notify);
            if let Some(col) = f.color {
                r.colors.push(col);
            }
            if !contains_string(&r.names, &f.title) {
                let ghost before = r.names@;
                r.names.push(f.title.clone());
                assert(strings_view(r.names@) =~= strings_view(before).push(f.title@));
            }
            if f.favorite {
                r.favorite_filters.push(f.index);
            }
            if f.ignore {
                r.ignore_filters.push(f.index);
            }
            assert(r@ =~= apply_spec(fs.take(i + 1), c@, yp@));
        }
        i += 1;
    }
    assert(fs.take(filters@.len() as int) =~= fs);
    r
}


// ------------------------------------------------------------------ laws

/// A filter that takes part in matching: switched on, with a base condition.
pub open spec fn in_use() -> spec_fn(Filter) -> bool {
    |f: Filter| f.enabled && f.base_search.search@.len() > 0
}

/// Each compiled filter stands for an enabled filter of the list, at its position,
/// with its title and its flags; the positions rise; every filter in use gives
/// exactly one compiled filter or one message, and the others give neither.
pub proof fn law_compiled_filters_point_back(fs: Seq<Filter>)
    requires
        fs.len() <= usize::MAX,
    ensures
        ({
            let (o, e) = compile_spec(fs);
            &&& forall|i: int|
                0 <= i < o.len() ==> {
                    &&& (#[trigger] o[i]).index < fs.len()
                    &&& fs[o[i].index as int].enabled
                    &&& o[i].title == title_spec(fs[o[i].index as int])
                    &&& o[i].favorite == fs[o[i].index as int].favorite
                    &&& o[i].ignore == fs[o[i].index as int].ignore
                    &&& o[i].notify == fs[o[i].index as int].notify
                }
            &&& forall|i: int, j: int| 0 <= i < j < o.len() ==> o[i].index < o[j].index
            &&& o.len() + e.len() == fs.filter(in_use()).len()
        }),
    decreases fs.len(),
{
    if fs.len() == 0 {
        reveal(Seq::filter);
        assert(fs.filter(in_use()).len() == 0);
    } else {
        let p = fs.drop_last();
        law_compiled_filters_point_back(p);
        assert(fs =~= p.push(fs.last()));
        p.lemma_filter_push(fs.last(), in_use());
        let (o0, e0) = compile_spec(p);
        let (o, e) = compile_spec(fs);
        assert forall|i: int| 0 <= i < o0.len() implies (#[trigger] o0[i]).index < p.len() && fs[o0[i].index as int]
            == p[o0[i].index as int] by {}
        match compile_one(fs.last(), (fs.len() - 1) as usize) {
            Some(Ok(m)) => {
                assert(o == o0.push(m));
                assert(m.index == fs.len() - 1);
                assert(m.title == title_spec(fs.last()));
                assert forall|i: int| 0 <= i < o.len() implies {
                    &&& (#[trigger] o[i]).index < fs.len()
                    &&& fs[o[i].index as int].enabled
                    &&& o[i].title == title_spec(fs[o[i].index as int])
                    &&& o[i].favorite == fs[o[i].index as int].favorite
                    &&& o[i].ignore == fs[o[i].index as int].ignore
                    &&& o[i].notify == fs[o[i].index as int].notify
                } by {
                    if i < o0.len() {
                        assert(o[i] == o0[i]);
                    }
                }
                assert forall|i: int, j: int| 0 <= i < j < o.len() implies o[i].index < o[j].index by {
                    assert(o[i] == o0[i]);
                    if j < o0.len() {
                        assert(o[j] == o0[j]);
                    }
                }
            },
            _ => {
                assert forall|i: int| 0 <= i < o.len() implies {
                    &&& (#[trigger] o[i]).index < fs.len()
                    &&& fs[o[i].index as int].enabled
                    &&& o[i].title == title_spec(fs[o[i].index as int])
                    &&& o[i].favorite == fs[o[i].index as int].favorite
                    &&& o[i].ignore == fs[o[i].index as int].ignore
                    &&& o[i].notify == fs[o[i].index as int].notify
                } by {
                    assert(o[i] == o0[i]);
                }
            },
        }
    }
}

/// A channel is a favorite when a matching filter is a favorite filter, ignored when a
/// matching filter is an ignore filter, and asks for a notice when a matching favorite
/// filter notifies.
pub proof fn law_match_flags(fs: Seq<CompiledFilterModel>, c: ChannelModel, yp: Seq<char>)
    ensures
        apply_spec(fs, c, yp).favorite <==> exists|i: int|
            0 <= i < fs.len() && #[trigger] filter_hits(fs[i], c, yp) && fs[i].favorite,
        apply_spec(fs, c, yp).ignore <==> exists|i: int|
            0 <= i < fs.len() && #[trigger] filter_hits(fs[i], c, yp) && fs[i].ignore,
        apply_spec(fs, c, yp).notify <==> exists|i: int|
            0 <= i < fs.len() && #[trigger] filter_hits(fs[i], c, yp) && fs[i].favorite && fs[i].notify,
    decreases fs.len(),
{
    if fs.len() > 0 {
        let p = fs.drop_last();
        law_match_flags(p, c, yp);
        let n = fs.len() - 1;
        assert forall|i: int| 0 <= i < p.len() implies #[trigger] fs[i] == p[i] by {}
        if apply_spec(p, c, yp).favorite {
            let i = choose|i: int| 0 <= i < p.len() && #[trigger] filter_hits(p[i], c, yp) && p[i].favorite;
            assert(fs[i] == p[i]);
        }
        if apply_spec(p, c, yp).ignore {
            let i = choose|i: int| 0 <= i < p.len() && #[trigger] filter_hits(p[i], c, yp) && p[i].ignore;
            assert(fs[i] == p[i]);
        }
        if apply_spec(p, c, yp).notify {
            let i = choose|i: int|
                0 <= i < p.len() && #[trigger] filter_hits(p[i], c, yp) && p[i].favorite && p[i].notify;
            assert(fs[i] == p[i]);
        }
        if exists|i: int| 0 <= i < fs.len() && #[trigger] filter_hits(fs[i], c, yp) && fs[i].favorite {
            let i = choose|i: int| 0 <= i < fs.len() && #[trigger] filter_hits(fs[i], c, yp) && fs[i].favorite;
            if i < n {
                assert(fs[i] == p[i]);
            }
        }
        if exists|i: int| 0 <= i < fs.len() && #[trigger] filter_hits(fs[i], c, yp) && fs[i].ignore {
            let i = choose|i: int| 0 <= i < fs.len() && #[trigger] filter_hits(fs[i], c, yp) && fs[i].ignore;
            if i < n {
                assert(fs[i] == p[i]);
            }
        }
        if exists|i: int|
            0 <= i < fs.len() && #[trigger] filter_hits(fs[i], c, yp) && fs[i].favorite && fs[i].notify {
            let i = choose|i: int|
                0 <= i < fs.len() && #[trigger] filter_hits(fs[i], c, yp) && fs[i].favorite && fs[i].notify;
            if i < n {
                assert(fs[i] == p[i]);
            }
        }
    }
}


/// Whether a filter matches the channel `c` of the YP `yp`.
pub open spec fn hits_pred(c: ChannelModel, yp: Seq<char>) -> spec_fn(CompiledFilterModel) -> bool {
    |f: CompiledFilterModel| filter_hits(f, c, yp)
}

pub open spec fn favorite_pred() -> spec_fn(CompiledFilterModel) -> bool {
    |f: CompiledFilterModel| f.favorite
}

pub open spec fn ignore_pred() -> spec_fn(CompiledFilterModel) -> bool {
    |f: CompiledFilterModel| f.ignore
}

pub open spec fn colored_pred() -> spec_fn(CompiledFilterModel) -> bool {
    |f: CompiledFilterModel| f.color is Some
}

/// The filters of `fs` that match the channel `c` of the YP `yp`, in order.
pub open spec fn matching(fs: Seq<CompiledFilterModel>, c: ChannelModel, yp: Seq<char>) -> Seq<CompiledFilterModel> {
    fs.filter(hits_pred(c, yp))
}

/// The positions of the favorite filters among `m`, in order.
pub open spec fn favorite_positions(m: Seq<CompiledFilterModel>) -> Seq<usize> {
    m.filter(favorite_pred()).map_values(|f: CompiledFilterModel| f.index)
}

/// The positions of the ignore filters among `m`, in order.
pub open spec fn ignore_positions(m: Seq<CompiledFilterModel>) -> Seq<usize> {
    m.filter(ignore_pred()).map_values(|f: CompiledFilterModel| f.index)
}

/// The colors of the filters among `m` that have one, in order.
pub open spec fn colors_in(m: Seq<CompiledFilterModel>) -> Seq<[u8; 3]> {
    m.filter(colored_pred()).map_values(|f: CompiledFilterModel| f.color.unwrap())
}

/// The title `a` occurs in `m` before any filter titled `b`.
pub open spec fn title_before(m: Seq<CompiledFilterModel>, a: Seq<char>, b: Seq<char>) -> bool {
    exists|p: int|
        0 <= p < m.len() && (#[trigger] m[p]).title == a && forall|q: int| 0 <= q <= p ==> (#[trigger] m[q]).title != b
}

/// `names` holds the titles of `m`, each once, in the order in which each first
/// occurs in `m`.
pub open spec fn first_seen_titles(names: Seq<Seq<char>>, m: Seq<CompiledFilterModel>) -> bool {
    &&& names.no_duplicates()
    &&& forall|t: Seq<char>|
        #![trigger names.contains(t)]
        names.contains(t) <==> exists|p: int| 0 <= p < m.len() && (#[trigger] m[p]).title == t
    &&& forall|i: int, j: int| 0 <= i < j < names.len() ==> title_before(m, #[trigger] names[i], #[trigger] names[j])
}

proof fn lemma_map_push<A, B>(s: Seq<A>, x: A, f: spec_fn(A) -> B)
    ensures
        s.push(x).map_values(f) == s.map_values(f).push(f(x)),
{
    assert(s.push(x).map_values(f) =~= s.map_values(f).push(f(x)));
}

/// The lists of a match follow the matching filters in order: the positions of the
/// favorite and of the ignore filters among them, their colors, and their titles, each
/// title once in the order in which it first comes.
pub proof fn law_match_lists(fs: Seq<CompiledFilterModel>, c: ChannelModel, yp: Seq<char>)
    ensures
        ({
            let r = apply_spec(fs, c, yp);
            let m = matching(fs, c, yp);
            &&& r.favorite_filters == favorite_positions(m)
            &&& r.ignore_filters == ignore_positions(m)
            &&& r.colors == colors_in(m)
            &&& first_seen_titles(r.names, m)
        }),
    decreases fs.len(),
{
    reveal(Seq::filter);
    if fs.len() == 0 {
        let m = matching(fs, c, yp);
        assert(m.len() == 0);
        assert(m.filter(favorite_pred()).len() == 0);
        assert(m.filter(ignore_pred()).len() == 0);
        assert(m.filter(colored_pred()).len() == 0);
        assert(favorite_positions(m) =~= Seq::<usize>::empty());
        assert(ignore_positions(m) =~= Seq::<usize>::empty());
        assert(colors_in(m) =~= Seq::<[u8; 3]>::empty());
        assert(first_seen_titles(apply_spec(fs, c, yp).names, m));
    } else {
        let p = fs.drop_last();
        let x = fs.last();
        law_match_lists(p, c, yp);
        assert(fs =~= p.push(x));
        p.lemma_filter_push(x, hits_pred(c, yp));
        let m0 = matching(p, c, yp);
        let m = matching(fs, c, yp);
        let r0 = apply_spec(p, c, yp);
        let r = apply_spec(fs, c, yp);
        if filter_hits(x, c, yp) {
            assert(m == m0.push(x));
            m0.lemma_filter_push(x, favorite_pred());
            m0.lemma_filter_push(x, ignore_pred());
            m0.lemma_filter_push(x, colored_pred());
            lemma_map_push(m0.filter(favorite_pred()), x, |f: CompiledFilterModel| f.index);
            lemma_map_push(m0.filter(ignore_pred()), x, |f: CompiledFilterModel| f.index);
            lemma_map_push(m0.filter(colored_pred()), x, |f: CompiledFilterModel| f.color.unwrap());
            assert forall|q: int| 0 <= q < m0.len() implies #[trigger] m[q] == m0[q] by {}
            assert(m[m0.len() as int] == x);
            assert(r.favorite_filters == favorite_positions(m));
            assert(r.ignore_filters == ignore_positions(m));
            assert(r.colors == colors_in(m));
            let n0 = r0.names;
            let n = r.names;
            if n0.contains(x.title) {
                assert(n == n0);
                assert forall|t: Seq<char>| #![trigger n.contains(t)] n.contains(t) <==> exists|q: int|
                    0 <= q < m.len() && (#[trigger] m[q]).title == t by {
                    if n.contains(t) {
                        let q = choose|q: int| 0 <= q < m0.len() && (#[trigger] m0[q]).title == t;
                        assert(m[q] == m0[q]);
                    }
                    if exists|q: int| 0 <= q < m.len() && (#[trigger] m[q]).title == t {
                        let q = choose|q: int| 0 <= q < m.len() && (#[trigger] m[q]).title == t;
                        if q < m0.len() {
                            assert(m0[q].title == t);
                        }
                    }
                }
                assert forall|i: int, j: int| 0 <= i < j < n.len() implies title_before(m, #[trigger] n[i], #[trigger] n[j]) by {
                    assert(title_before(m0, n0[i], n0[j]));
                    let q = choose|q: int|
                        0 <= q < m0.len() && (#[trigger] m0[q]).title == n0[i] && forall|k: int|
                            0 <= k <= q ==> (#[trigger] m0[k]).title != n0[j];
                    assert(m[q] == m0[q]);
                    assert forall|k: int| 0 <= k <= q implies (#[trigger] m[k]).title != n[j] by {
                        assert(m[k] == m0[k]);
                    }
                }
            } else {
                assert(n == n0.push(x.title));
                lemma_push_distinct(n0, x.title);
                assert forall|t: Seq<char>| #![trigger n.contains(t)] n.contains(t) <==> exists|q: int|
                    0 <= q < m.len() && (#[trigger] m[q]).title == t by {
                    if n.contains(t) {
                        let k = choose|k: int| 0 <= k < n.len() && n[k] == t;
                        if k < n0.len() {
                            assert(n0[k] == t);
                            assert(n0.contains(t));
                            let q = choose|q: int| 0 <= q < m0.len() && (#[trigger] m0[q]).title == t;
                            assert(m[q] == m0[q]);
                        } else {
                            assert(m[m0.len() as int].title == t);
                        }
                    }
                    if exists|q: int| 0 <= q < m.len() && (#[trigger] m[q]).title == t {
                        let q = choose|q: int| 0 <= q < m.len() && (#[trigger] m[q]).title == t;
                        if q < m0.len() {
                            assert(m0[q].title == t);
                            assert(n0.contains(t));
                            let k = choose|k: int| 0 <= k < n0.len() && n0[k] == t;
                            assert(n[k] == t);
                        } else {
                            assert(n[n0.len() as int] == t);
                        }
                    }
                }
                assert forall|i: int, j: int| 0 <= i < j < n.len() implies title_before(m, #[trigger] n[i], #[trigger] n[j]) by {
                    assert(n[i] == n0[i]);
                    if j < n0.len() {
                        assert(n[j] == n0[j]);
                        assert(title_before(m0, n0[i], n0[j]));
                        let q = choose|q: int|
                            0 <= q < m0.len() && (#[trigger] m0[q]).title == n0[i] && forall|k: int|
                                0 <= k <= q ==> (#[trigger] m0[k]).title != n0[j];
                        assert(m[q] == m0[q]);
                        assert forall|k: int| 0 <= k <= q implies (#[trigger] m[k]).title != n[j] by {
                            assert(m[k] == m0[k]);
                        }
                    } else {
                        assert(n[j] == x.title);
                        assert(n0.contains(n0[i]));
                        let q = choose|q: int| 0 <= q < m0.len() && (#[trigger] m0[q]).title == n0[i];
                        assert(m[q] == m0[q]);
                        assert forall|k: int| 0 <= k <= q implies (#[trigger] m[k]).title != n[j] by {
                            assert(m[k] == m0[k]);
                            if m0[k].title == x.title {
                                assert(n0.contains(x.title));
                            }
                        }
                    }
                }
            }
            assert(first_seen_titles(n, m));
        } else {
            assert(m == m0);
            assert(r == r0);
        }
    }
}

} // verus!
