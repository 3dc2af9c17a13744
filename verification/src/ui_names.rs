//! The names by which the editor forms and tables of the web frontend
//! tell their pages and actions apart.
use vstd::prelude::*;
use crate::text::concat;

verus! {

/// Whether two strings are the same.
pub fn str_eq(a: &str, b: &str) -> (r: bool)
    ensures
        r == (a@ == b@),
{
    let n = a.unicode_len();
    if n != b.unicode_len() {
        return false;
    }
    let mut i: usize = 0;
    while i < n
        invariant
            n == a@.len(),
            n == b@.len(),
            i <= n,
            forall|k: int| 0 <= k < i ==> a@[k] == b@[k],
        decreases n - i,
    {
        if a.get_char(i) != b.get_char(i) {
            return false;
        }
        i = i + 1;
    }
    assert(a@ =~= b@);
    true
}

/// Pages of the input editor form.
#[derive(Debug, Clone, Copy, PartialEq, Eq, Structural)]
pub enum InputFormPage {
    Main,
    Options,
    Staged,
    Advanced,
    Alias,
}

/// The name of each InputFormPage value.
pub open spec fn input_form_page_name(p: InputFormPage) -> Seq<char> {
    match p {
        InputFormPage::Main => "Main"@,
        InputFormPage::Options => "Options"@,
        InputFormPage::Staged => "Staged"@,
        InputFormPage::Advanced => "Advanced"@,
        InputFormPage::Alias => "Alias"@,
    }
}

/// Different InputFormPage values have different names.
pub proof fn lemma_input_form_page_names_distinct()
    ensures
        forall|p: InputFormPage, q: InputFormPage| input_form_page_name(p) == input_form_page_name(q) ==> p == q,
{
    assert forall|p: InputFormPage, q: InputFormPage| input_form_page_name(p) == input_form_page_name(q) implies p == q by {
        reveal_strlit("Main");
        reveal_strlit("Options");
        reveal_strlit("Staged");
        reveal_strlit("Advanced");
        reveal_strlit("Alias");
        if p != q {
            match p {
                InputFormPage::Main => assert(input_form_page_name(p)[0] != input_form_page_name(q)[0] || input_form_page_name(p).len() != input_form_page_name(q).len() || input_form_page_name(p) != input_form_page_name(q)),
                InputFormPage::Options => assert(input_form_page_name(p)[0] != input_form_page_name(q)[0] || input_form_page_name(p).len() != input_form_page_name(q).len() || input_form_page_name(p) != input_form_page_name(q)),
                InputFormPage::Staged => assert(input_form_page_name(p)[0] != input_form_page_name(q)[0] || input_form_page_name(p).len() != input_form_page_name(q).len() || input_form_page_name(p) != input_form_page_name(q)),
                InputFormPage::Advanced => assert(input_form_page_name(p)[0] != input_form_page_name(q)[0] || input_form_page_name(p).len() != input_form_page_name(q).len() || input_form_page_name(p) != input_form_page_name(q)),
                InputFormPage::Alias => assert(input_form_page_name(p)[0] != input_form_page_name(q)[0] || input_form_page_name(p).len() != input_form_page_name(q).len() || input_form_page_name(p) != input_form_page_name(q)),
            }
        }
    }
}

impl InputFormPage {
    /// The name of the value.
    pub fn name(&self) -> (r: &'static str)
        ensures
            r@ == input_form_page_name(*self),
    {
        match self {
            InputFormPage::Main => "Main",
            InputFormPage::Options => "Options",
            InputFormPage::Staged => "Staged",
            InputFormPage::Advanced => "Advanced",
            InputFormPage::Alias => "Alias",
        }
    }

    /// The value of the given name; the error message names what was given.
    pub fn from_name(s: &str) -> (r: Result<Self, String>)
        ensures
            forall|p: InputFormPage| s@ == input_form_page_name(p) ==> r == Ok::<InputFormPage, String>(p),
            r matches Ok(p) ==> s@ == input_form_page_name(p),
            r matches Err(m) ==> (forall|p: InputFormPage| s@ != input_form_page_name(p)) && m@ == "Unknown input form page: "@ + s@,
    {
        proof {
            lemma_input_form_page_names_distinct();
        }
        if str_eq(s, "Main") {
            proof {
                assert(s@ == input_form_page_name(InputFormPage::Main));
            }
            return Ok(InputFormPage::Main);
        }
        if str_eq(s, "Options") {
            proof {
                assert(s@ == input_form_page_name(InputFormPage::Options));
            }
            return Ok(InputFormPage::Options);
        }
        if str_eq(s, "Staged") {
            proof {
                assert(s@ == input_form_page_name(InputFormPage::Staged));
            }
            return Ok(InputFormPage::Staged);
        }
        if str_eq(s, "Advanced") {
            proof {
                assert(s@ == input_form_page_name(InputFormPage::Advanced));
            }
            return Ok(InputFormPage::Advanced);
        }
        if str_eq(s, "Alias") {
            proof {
                assert(s@ == input_form_page_name(InputFormPage::Alias));
            }
            return Ok(InputFormPage::Alias);
        }
        let r = concat("Unknown input form page: ", s);
        proof {
            assert forall|p: InputFormPage| s@ != input_form_page_name(p) by {
                match p {
                    InputFormPage::Main => {},
                    InputFormPage::Options => {},
                    InputFormPage::Staged => {},
                    InputFormPage::Advanced => {},
                    InputFormPage::Alias => {},
                }
            }
        }
        Err(r)
    }
}

impl std::str::FromStr for InputFormPage {
    type Err = String;

    fn from_str(s: &str) -> (r: Result<Self, String>)
        ensures
            forall|p: InputFormPage| s@ == input_form_page_name(p) ==> r == Ok::<InputFormPage, String>(p),
            r matches Ok(p) ==> s@ == input_form_page_name(p),
            r matches Err(m) ==> (forall|p: InputFormPage| s@ != input_form_page_name(p)) && m@ == "Unknown input form page: "@ + s@,
    {
        InputFormPage::from_name(s)
    }
}

/// Pages of the strm output editor form.
#[derive(Debug, Clone, Copy, PartialEq, Eq, Structural)]
pub enum StrmFormPage {
    Main,
    Options,
}

/// The name of each StrmFormPage value.
pub open spec fn strm_form_page_name(p: StrmFormPage) -> Seq<char> {
    match p {
        StrmFormPage::Main => "Main"@,
        StrmFormPage::Options => "Options"@,
    }
}

/// Different StrmFormPage values have different names.
pub proof fn lemma_strm_form_page_names_distinct()
    ensures
        forall|p: StrmFormPage, q: StrmFormPage| strm_form_page_name(p) == strm_form_page_name(q) ==> p == q,
{
    assert forall|p: StrmFormPage, q: StrmFormPage| strm_form_page_name(p) == strm_form_page_name(q) implies p == q by {
        reveal_strlit("Main");
        reveal_strlit("Options");
        if p != q {
            match p {
                StrmFormPage::Main => assert(strm_form_page_name(p)[0] != strm_form_page_name(q)[0] || strm_form_page_name(p).len() != strm_form_page_name(q).len() || strm_form_page_name(p) != strm_form_page_name(q)),
                StrmFormPage::Options => assert(strm_form_page_name(p)[0] != strm_form_page_name(q)[0] || strm_form_page_name(p).len() != strm_form_page_name(q).len() || strm_form_page_name(p) != strm_form_page_name(q)),
            }
        }
    }
}

impl StrmFormPage {
    /// The name of the value.
    pub fn name(&self) -> (r: &'static str)
        ensures
            r@ == strm_form_page_name(*self),
    {
        match self {
            StrmFormPage::Main => "Main",
            StrmFormPage::Options => "Options",
        }
    }

    /// The value of the given name; the error message names what was given.
    pub fn from_name(s: &str) -> (r: Result<Self, String>)
        ensures
            forall|p: StrmFormPage| s@ == strm_form_page_name(p) ==> r == Ok::<StrmFormPage, String>(p),
            r matches Ok(p) ==> s@ == strm_form_page_name(p),
            r matches Err(m) ==> (forall|p: StrmFormPage| s@ != strm_form_page_name(p)) && m@ == "Unknown strm output form page: "@ + s@,
    {
        proof {
            lemma_strm_form_page_names_distinct();
        }
        if str_eq(s, "Main") {
            proof {
                assert(s@ == strm_form_page_name(StrmFormPage::Main));
            }
            return Ok(StrmFormPage::Main);
        }
        if str_eq(s, "Options") {
            proof {
                assert(s@ == strm_form_page_name(StrmFormPage::Options));
            }
            return Ok(StrmFormPage::Options);
        }
        let r = concat("Unknown strm output form page: ", s);
        proof {
            assert forall|p: StrmFormPage| s@ != strm_form_page_name(p) by {
                match p {
                    StrmFormPage::Main => {},
                    StrmFormPage::Options => {},
                }
            }
        }
        Err(r)
    }
}

impl std::str::FromStr for StrmFormPage {
    type Err = String;

    fn from_str(s: &str) -> (r: Result<Self, String>)
        ensures
            forall|p: StrmFormPage| s@ == strm_form_page_name(p) ==> r == Ok::<StrmFormPage, String>(p),
            r matches Ok(p) ==> s@ == strm_form_page_name(p),
            r matches Err(m) ==> (forall|p: StrmFormPage| s@ != strm_form_page_name(p)) && m@ == "Unknown strm output form page: "@ + s@,
    {
        StrmFormPage::from_name(s)
    }
}

/// Pages of the target editor form.
#[derive(Debug, Clone, Copy, PartialEq, Eq, Structural)]
pub enum TargetFormPage {
    Main,
    Options,
}

/// The name of each TargetFormPage value.
pub open spec fn target_form_page_name(p: TargetFormPage) -> Seq<char> {
    match p {
        TargetFormPage::Main => "Main"@,
        TargetFormPage::Options => "Options"@,
    }
}

/// Different TargetFormPage values have different names.
pub proof fn lemma_target_form_page_names_distinct()
    ensures
        forall|p: TargetFormPage, q: TargetFormPage| target_form_page_name(p) == target_form_page_name(q) ==> p == q,
{
    assert forall|p: TargetFormPage, q: TargetFormPage| target_form_page_name(p) == target_form_page_name(q) implies p == q by {
        reveal_strlit("Main");
        reveal_strlit("Options");
        if p != q {
            match p {
                TargetFormPage::Main => assert(target_form_page_name(p)[0] != target_form_page_name(q)[0] || target_form_page_name(p).len() != target_form_page_name(q).len() || target_form_page_name(p) != target_form_page_name(q)),
                TargetFormPage::Options => assert(target_form_page_name(p)[0] != target_form_page_name(q)[0] || target_form_page_name(p).len() != target_form_page_name(q).len() || target_form_page_name(p) != target_form_page_name(q)),
            }
        }
    }
}

impl TargetFormPage {
    /// The name of the value.
    pub fn name(&self) -> (r: &'static str)
        ensures
            r@ == target_form_page_name(*self),
    {
        match self {
            TargetFormPage::Main => "Main",
            TargetFormPage::Options => "Options",
        }
    }

    /// The value of the given name; the error message names what was given.
    pub fn from_name(s: &str) -> (r: Result<Self, String>)
        ensures
            forall|p: TargetFormPage| s@ == target_form_page_name(p) ==> r == Ok::<TargetFormPage, String>(p),
            r matches Ok(p) ==> s@ == target_form_page_name(p),
            r matches Err(m) ==> (forall|p: TargetFormPage| s@ != target_form_page_name(p)) && m@ == "Unknown target form page: "@ + s@,
    {
        proof {
            lemma_target_form_page_names_distinct();
        }
        if str_eq(s, "Main") {
            proof {
                assert(s@ == target_form_page_name(TargetFormPage::Main));
            }
            return Ok(TargetFormPage::Main);
        }
        if str_eq(s, "Options") {
            proof {
                assert(s@ == target_form_page_name(TargetFormPage::Options));
            }
            return Ok(TargetFormPage::Options);
        }
        let r = concat("Unknown target form page: ", s);
        proof {
            assert forall|p: TargetFormPage| s@ != target_form_page_name(p) by {
                match p {
                    TargetFormPage::Main => {},
                    TargetFormPage::Options => {},
                }
            }
        }
        Err(r)
    }
}

impl std::str::FromStr for TargetFormPage {
    type Err = String;

    fn from_str(s: &str) -> (r: Result<Self, String>)
        ensures
            forall|p: TargetFormPage| s@ == target_form_page_name(p) ==> r == Ok::<TargetFormPage, String>(p),
            r matches Ok(p) ==> s@ == target_form_page_name(p),
            r matches Err(m) ==> (forall|p: TargetFormPage| s@ != target_form_page_name(p)) && m@ == "Unknown target form page: "@ + s@,
    {
        TargetFormPage::from_name(s)
    }
}

/// Actions on a row of the input table.
#[derive(Debug, Clone, Copy, PartialEq, Eq, Structural)]
pub enum TableAction {
    Edit,
    Refresh,
    Delete,
}

/// The name of each TableAction value.
pub open spec fn table_action_name(p: TableAction) -> Seq<char> {
    match p {
        TableAction::Edit => "edit"@,
        TableAction::Refresh => "refresh"@,
        TableAction::Delete => "delete"@,
    }
}

/// Different TableAction values have different names.
pub proof fn lemma_table_action_names_distinct()
    ensures
        forall|p: TableAction, q: TableAction| table_action_name(p) == table_action_name(q) ==> p == q,
{
    assert forall|p: TableAction, q: TableAction| table_action_name(p) == table_action_name(q) implies p == q by {
        reveal_strlit("edit");
        reveal_strlit("refresh");
        reveal_strlit("delete");
        if p != q {
            match p {
                TableAction::Edit => assert(table_action_name(p)[0] != table_action_name(q)[0] || table_action_name(p).len() != table_action_name(q).len() || table_action_name(p) != table_action_name(q)),
                TableAction::Refresh => assert(table_action_name(p)[0] != table_action_name(q)[0] || table_action_name(p).len() != table_action_name(q).len() || table_action_name(p) != table_action_name(q)),
                TableAction::Delete => assert(table_action_name(p)[0] != table_action_name(q)[0] || table_action_name(p).len() != table_action_name(q).len() || table_action_name(p) != table_action_name(q)),
            }
        }
    }
}

impl TableAction {
    /// The name of the value.
    pub fn name(&self) -> (r: &'static str)
        ensures
            r@ == table_action_name(*self),
    {
        match self {
            TableAction::Edit => "edit",
            TableAction::Refresh => "refresh",
            TableAction::Delete => "delete",
        }
    }

    /// The value of the given name; the error message names what was given.
    pub fn from_name(s: &str) -> (r: Result<Self, String>)
        ensures
            forall|p: TableAction| s@ == table_action_name(p) ==> r == Ok::<TableAction, String>(p),
            r matches Ok(p) ==> s@ == table_action_name(p),
            r matches Err(m) ==> (forall|p: TableAction| s@ != table_action_name(p)) && m@ == "Unknown TableAction: "@ + s@,
    {
        proof {
            lemma_table_action_names_distinct();
        }
        if str_eq(s, "edit") {
            proof {
                assert(s@ == table_action_name(TableAction::Edit));
            }
            return Ok(TableAction::Edit);
        }
        if str_eq(s, "refresh") {
            proof {
                assert(s@ == table_action_name(TableAction::Refresh));
            }
            return Ok(TableAction::Refresh);
        }
        if str_eq(s, "delete") {
            proof {
                assert(s@ == table_action_name(TableAction::Delete));
            }
            return Ok(TableAction::Delete);
        }
        let r = concat("Unknown TableAction: ", s);
        proof {
            assert forall|p: TableAction| s@ != table_action_name(p) by {
                match p {
                    TableAction::Edit => {},
                    TableAction::Refresh => {},
                    TableAction::Delete => {},
                }
            }
        }
        Err(r)
    }
}

impl std::str::FromStr for TableAction {
    type Err = String;

    fn from_str(s: &str) -> (r: Result<Self, String>)
        ensures
            forall|p: TableAction| s@ == table_action_name(p) ==> r == Ok::<TableAction, String>(p),
            r matches Ok(p) ==> s@ == table_action_name(p),
            r matches Err(m) ==> (forall|p: TableAction| s@ != table_action_name(p)) && m@ == "Unknown TableAction: "@ + s@,
    {
        TableAction::from_name(s)
    }
}

/// Actions of the playlist explorer.
#[derive(Debug, Clone, Copy, PartialEq, Eq, Structural)]
pub enum ExplorerAction {
    CopyLinkTuliproxVirtualId,
    CopyLinkTuliproxWebPlayerUrl,
    CopyLinkProviderUrl,
}

/// The name of each ExplorerAction value.
pub open spec fn explorer_action_name(p: ExplorerAction) -> Seq<char> {
    match p {
        ExplorerAction::CopyLinkTuliproxVirtualId => "copy_link_tuliprox_virtual_id"@,
        ExplorerAction::CopyLinkTuliproxWebPlayerUrl => "copy_link_tuliprox_webplayer_url"@,
        ExplorerAction::CopyLinkProviderUrl => "copy_link_provider_url"@,
    }
}

/// Different ExplorerAction values have different names.
pub proof fn lemma_explorer_action_names_distinct()
    ensures
        forall|p: ExplorerAction, q: ExplorerAction| explorer_action_name(p) == explorer_action_name(q) ==> p == q,
{
    assert forall|p: ExplorerAction, q: ExplorerAction| explorer_action_name(p) == explorer_action_name(q) implies p == q by {
        reveal_strlit("copy_link_tuliprox_virtual_id");
        reveal_strlit("copy_link_tuliprox_webplayer_url");
        reveal_strlit("copy_link_provider_url");
        if p != q {
            match p {
                ExplorerAction::CopyLinkTuliproxVirtualId => assert(explorer_action_name(p)[0] != explorer_action_name(q)[0] || explorer_action_name(p).len() != explorer_action_name(q).len() || explorer_action_name(p) != explorer_action_name(q)),
                ExplorerAction::CopyLinkTuliproxWebPlayerUrl => assert(explorer_action_name(p)[0] != explorer_action_name(q)[0] || explorer_action_name(p).len() != explorer_action_name(q).len() || explorer_action_name(p) != explorer_action_name(q)),
                ExplorerAction::CopyLinkProviderUrl => assert(explorer_action_name(p)[0] != explorer_action_name(q)[0] || explorer_action_name(p).len() != explorer_action_name(q).len() || explorer_action_name(p) != explorer_action_name(q)),
            }
        }
    }
}

impl ExplorerAction {
    /// The name of the value.
    pub fn name(&self) -> (r: &'static str)
        ensures
            r@ == explorer_action_name(*self),
    {
        match self {
            ExplorerAction::CopyLinkTuliproxVirtualId => "copy_link_tuliprox_virtual_id",
            ExplorerAction::CopyLinkTuliproxWebPlayerUrl => "copy_link_tuliprox_webplayer_url",
            ExplorerAction::CopyLinkProviderUrl => "copy_link_provider_url",
        }
    }

    /// The value of the given name; the error message names what was given.
    pub fn from_name(s: &str) -> (r: Result<Self, String>)
        ensures
            forall|p: ExplorerAction| s@ == explorer_action_name(p) ==> r == Ok::<ExplorerAction, String>(p),
            r matches Ok(p) ==> s@ == explorer_action_name(p),
            r matches Err(m) ==> (forall|p: ExplorerAction| s@ != explorer_action_name(p)) && m@ == "Unknown ExplorerAction: "@ + s@,
    {
        proof {
            lemma_explorer_action_names_distinct();
        }
        if str_eq(s, "copy_link_tuliprox_virtual_id") {
            proof {
                assert(s@ == explorer_action_name(ExplorerAction::CopyLinkTuliproxVirtualId));
            }
            return Ok(ExplorerAction::CopyLinkTuliproxVirtualId);
        }
        if str_eq(s, "copy_link_tuliprox_webplayer_url") {
            proof {
                assert(s@ == explorer_action_name(ExplorerAction::CopyLinkTuliproxWebPlayerUrl));
            }
            return Ok(ExplorerAction::CopyLinkTuliproxWebPlayerUrl);
        }
        if str_eq(s, "copy_link_provider_url") {
            proof {
                assert(s@ == explorer_action_name(ExplorerAction::CopyLinkProviderUrl));
            }
            return Ok(ExplorerAction::CopyLinkProviderUrl);
        }
        let r = concat("Unknown ExplorerAction: ", s);
        proof {
            assert forall|p: ExplorerAction| s@ != explorer_action_name(p) by {
                match p {
                    ExplorerAction::CopyLinkTuliproxVirtualId => {},
                    ExplorerAction::CopyLinkTuliproxWebPlayerUrl => {},
                    ExplorerAction::CopyLinkProviderUrl => {},
                }
            }
        }
        Err(r)
    }
}

impl std::str::FromStr for ExplorerAction {
    type Err = String;

    fn from_str(s: &str) -> (r: Result<Self, String>)
        ensures
            forall|p: ExplorerAction| s@ == explorer_action_name(p) ==> r == Ok::<ExplorerAction, String>(p),
            r matches Ok(p) ==> s@ == explorer_action_name(p),
            r matches Err(m) ==> (forall|p: ExplorerAction| s@ != explorer_action_name(p)) && m@ == "Unknown ExplorerAction: "@ + s@,
    {
        ExplorerAction::from_name(s)
    }
}

} // verus!
