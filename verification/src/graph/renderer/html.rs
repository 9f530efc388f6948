//! The HTML page that shows animated SVG pictures side by side, with a menu of the other
//! pages when there are several.
use vstd::prelude::*;
use crate::text::push_str;

verus! {

pub const HEAD: &'static str = "\n<!DOCTYPE html>\n<html>\n  <head>\n    <meta charset=\"utf-8\" />\n    <meta http-equiv=\"pragma\" content=\"no-cache\">\n    <meta http-equiv=\"expires\" content=\"0\">\n    <meta http-equiv=\"cache-control\" content=\"no-cache, must-revalidate\">\n    <meta name=\"viewport\" content=\"width=device-width, initial-scale=1.0\"><title>Dynalgo - ";

pub const AFTER_TITLE: &'static str = "</title>\n   <style>\n\t\tbody {\n                    background-color: rgb(255, 255, 255);            color: rgb(0, 0, 139);            \n\t\t\tmargin: 0px;\n\t\t\tpadding: 0px;\n\t\t\tdisplay: flex;\n\t\t}\n\n\t\t:link {\n                    color: rgb(0, 0, 139);      \n\t\t}";

pub const MENU_STYLE: &'static str = "\n\t\tnav {\n\t\t    font-size: 1em;\n\t\t    border: none;\n\t\t    display: flex;\n\t\t    flex-flow: column wrap;\n\t\t    padding: 0px;\n\t\t    margin: 0px;\n\t\t    min-width: 230px;\n\t\t}\n\n\t\tnav ul {\n\t\t    margin: 0px;\n\t\t    padding: 0px;\n\t\t    list-style: none;\n\t\t    display: flex;\n\t\t    flex-flow: column wrap;\n\t\t    justify-content: left;\n\t\t}\n\n\t\tnav a {\n\t\t    padding-top: 0.2em;\n\t\t    display: block;\n\t\t    text-align: left;\n\t\t    text-decoration: none;\n                    color: rgb(0, 0, 139);  \n\t\t}\n\n        li {\n                    border-top: 1px solid rgb(255, 255, 255);\n            border-bottom: 1px solid rgb(255, 255, 255);            \n        }\n\n\t\tli:hover{\n                    border-top: 1px solid rgb(0, 0, 139);\n            border-bottom: 1px solid rgb(0, 0, 139);            \n        }\n\n\t\theader {\n\t\t    display: flex;\n\t\t    padding: 0px;\n\t\t    margin: 0px;\n\t\t    justify-content: space-around;\n                    border-bottom: 1px solid rgb(211, 211, 211);                        \n\t\t}";

pub const LAYOUT_STYLE: &'static str = "\n\t\tsection {\n\t\t\tdisplay: flex;\n\t\t\tflex-flow: row nowrap;\n\t\t\twidth: 100%;\n\t\t\theight: 100vh;\n\t\t\tpadding: 0px;\n\t\t\tmargin: 0px;\n\t\t\tjustify-content: space-between;\n\t\t}\n\n\t\tarticle {\n\t\t\tdisplay: flex;\n\t\t\tborder: none;\n\t\t\twidth: 50%;\n\t\t\theight: 100%;\n\t\t\tpadding: 0px;\n\t\t\tmargin: 0px;\n\t\t\toverflow: hidden;\n                    border-left: 1px solid rgb(211, 211, 211);      \n\t\t}\n\n\t\t svg text{\n\t\t  text-anchor: middle;\n\t\t  dominant-baseline: central;\n\t\t}\n\n\t\t@media screen and (max-width: 800px) {\n\t\t\tbody {\n\t\t\t\tflex-direction: column;\n\t\t\t\twidth: 100%;\n\t\t\t}\n\n\t\t\tsection {\n\t\t\t\tborder-left: none;\n\t\t\t\tflex-direction: column;\n\t\t\t\twidth: 100%;\n\t\t\t}\n\n\t\t\tarticle {\n                    border-top: 1px solid rgb(211, 211, 211);    \n\t\t\t\tborder-left: none;\n\t\t\t\twidth: 100%;\n\t\t\t}\n";

pub const MENU_NARROW_STYLE: &'static str = "\n\t\t\tnav {\n\t\t    \twidth: 100%;\n\t\t\t}\n\n\t\t\tnav ul {\n\t\t\t\tborder-right: none;\n\t\t\t    justify-content: center;\n\t\t\t}\n\n\t\t\tnav a {\n\t\t\t    text-align: center;\n\t\t\t}";

pub const SELECTED_STYLE: &'static str = "\n\t\t}\n\n\t\t.selected {\n\t\t\tfont-style: italic;\n                    border-top: 1px solid rgb(0, 0, 139);            border-bottom: 1px solid rgb(0, 0, 139);            \n\t\t}\n\n\t\t.info a {\n\t\t\tfont-size: 1.5em;\n\t\t    padding: 0px;\n\t\t    margin: 0px;\n\t\t    text-decoration: none;\n\t\t\tcursor: pointer;\n\t\t\tfont-style: italic;\n\t\t}\n\n\n    </style>\n    <script>\n        function pause(svg) {\n            if (svg.animationsPaused()) {\n                svg.unpauseAnimations();\n            } else {\n                svg.pauseAnimations();\n            }\n        }\n    </script>\n  </head>\n  <body>\n";

pub const NAV_OPEN: &'static str = "\n    <nav>\n    \t<header>\n        \t<div class=\"info\"> <a href=\"https://github.com/dynalgo/dynalgo.github.io\">Dynalgo</a>\n        \t</div>\n        </header>\n        <ul id=\"menu\">";

pub const ITEM_SELECTED: &'static str = "\n\t\t<li class=\"selected\">";

pub const ITEM: &'static str = "\n\t\t<li>";

pub const LINK_PRE: &'static str = "<a href=\"";

pub const LINK_MID: &'static str = ".html\">";

pub const LINK_POST: &'static str = "</a>";

pub const ITEM_CLOSE: &'static str = "\n\t\t</li>";

pub const NAV_CLOSE: &'static str = "\n        </ul>\n    </nav>";

pub const SECTION_OPEN: &'static str = "\n    <section>";

pub const ARTICLE_OPEN: &'static str = "\n\t\t<article>";

pub const ARTICLE_CLOSE: &'static str = "\n\t\t</article>";

pub const END: &'static str = "\n    </section>\n  </body>\n</html>";

/// The views of a list of strings.
pub open spec fn string_views(v: Seq<String>) -> Seq<Seq<char>> {
    v.map_values(|t: String| t@)
}

/// The menu entry of page `i`, a link to its file; the entry of the current page is marked
/// as selected.
pub open spec fn menu_item_text(titles: Seq<Seq<char>>, title_idx: int, file_names: Seq<Seq<char>>, i: int) -> Seq<char> {
    (if i == title_idx {
        ITEM_SELECTED@
    } else {
        ITEM@
    }) + LINK_PRE@ + file_names[i] + LINK_MID@ + titles[i] + LINK_POST@ + ITEM_CLOSE@
}

/// The menu entries of the first `n` pages.
pub open spec fn menu_items_text(titles: Seq<Seq<char>>, title_idx: int, file_names: Seq<Seq<char>>, n: int) -> Seq<char>
    decreases n,
{
    if n <= 0 {
        Seq::empty()
    } else {
        menu_items_text(titles, title_idx, file_names, n - 1) + menu_item_text(titles, title_idx, file_names, n - 1)
    }
}

/// The first `n` pictures, each in an article.
pub open spec fn articles_text(contents: Seq<Seq<char>>, n: int) -> Seq<char>
    decreases n,
{
    if n <= 0 {
        Seq::empty()
    } else {
        articles_text(contents, n - 1) + ARTICLE_OPEN@ + contents[n - 1] + ARTICLE_CLOSE@
    }
}

/// The page `title_idx` of a set of pages: its title, its style, the menu of the pages (when
/// there are several) and the pictures side by side.
pub open spec fn page_text(titles: Seq<Seq<char>>, title_idx: int, file_names: Seq<Seq<char>>, contents: Seq<Seq<char>>) -> Seq<char> {
    let multi = titles.len() > 1;
    HEAD@ + titles[title_idx] + AFTER_TITLE@ + (if multi {
        MENU_STYLE@
    } else {
        Seq::empty()
    }) + LAYOUT_STYLE@ + (if multi {
        MENU_NARROW_STYLE@
    } else {
        Seq::empty()
    }) + SELECTED_STYLE@ + (if multi {
        NAV_OPEN@ + menu_items_text(titles, title_idx, file_names, titles.len() as int) + NAV_CLOSE@
    } else {
        Seq::empty()
    }) + SECTION_OPEN@ + articles_text(contents, contents.len() as int) + END@
}

/// The length of the first `n` pictures of `contents`, each with the article tags around it.
pub open spec fn articles_len(contents: Seq<Seq<char>>, n: int) -> int
    decreases n,
{
    if n <= 0 {
        0
    } else {
        articles_len(contents, n - 1) + ARTICLE_OPEN@.len() + contents[n - 1].len() + ARTICLE_CLOSE@.len()
    }
}

/// The first `n` articles are the first `n` pictures, in order, each in its article: picture
/// `i` in an article that starts at the length of the `i` articles before it.
proof fn lemma_articles_in_order(contents: Seq<Seq<char>>, n: int)
    requires
        0 <= n <= contents.len(),
    ensures
        articles_text(contents, n).len() == articles_len(contents, n),
        forall|i: int| 0 <= i < n ==> articles_text(contents, n).subrange(articles_len(contents, i), articles_len(contents, i + 1))
            == ARTICLE_OPEN@ + contents[i] + ARTICLE_CLOSE@,
        forall|i: int| 0 <= i <= n ==> 0 <= #[trigger] articles_len(contents, i) <= articles_len(contents, n),
    decreases n,
{
    if n > 0 {
        lemma_articles_in_order(contents, n - 1);
        let prev = articles_text(contents, n - 1);
        let art = ARTICLE_OPEN@ + contents[n - 1] + ARTICLE_CLOSE@;
        let all = articles_text(contents, n);
        assert(all =~= prev + art);
        assert forall|i: int| 0 <= i < n implies all.subrange(articles_len(contents, i), articles_len(contents, i + 1)) == ARTICLE_OPEN@ + contents[i] + ARTICLE_CLOSE@ by {
            if i < n - 1 {
                assert(all.subrange(articles_len(contents, i), articles_len(contents, i + 1))
                    =~= prev.subrange(articles_len(contents, i), articles_len(contents, i + 1)));
            } else {
                assert(all.subrange(articles_len(contents, i), articles_len(contents, i + 1)) =~= art);
            }
        }
    }
}

/// The length of the menu entries of the first `n` pages.
pub open spec fn items_len(titles: Seq<Seq<char>>, title_idx: int, file_names: Seq<Seq<char>>, n: int) -> int
    decreases n,
{
    if n <= 0 {
        0
    } else {
        items_len(titles, title_idx, file_names, n - 1) + menu_item_text(titles, title_idx, file_names, n - 1).len()
    }
}

/// The menu lists the entry of each page, in order: the entry of page `i` starts at the
/// length of the `i` entries before it.
proof fn lemma_items_in_order(titles: Seq<Seq<char>>, title_idx: int, file_names: Seq<Seq<char>>, n: int)
    requires
        0 <= n,
    ensures
        menu_items_text(titles, title_idx, file_names, n).len() == items_len(titles, title_idx, file_names, n),
        forall|i: int| 0 <= i < n ==> menu_items_text(titles, title_idx, file_names, n).subrange(
            items_len(titles, title_idx, file_names, i), items_len(titles, title_idx, file_names, i + 1))
            == menu_item_text(titles, title_idx, file_names, i),
        forall|i: int| 0 <= i <= n ==> 0 <= #[trigger] items_len(titles, title_idx, file_names, i) <= items_len(titles, title_idx, file_names, n),
    decreases n,
{
    if n > 0 {
        lemma_items_in_order(titles, title_idx, file_names, n - 1);
        let prev = menu_items_text(titles, title_idx, file_names, n - 1);
        let item = menu_item_text(titles, title_idx, file_names, n - 1);
        let all = menu_items_text(titles, title_idx, file_names, n);
        assert(all =~= prev + item);
        assert forall|i: int| 0 <= i < n implies all.subrange(items_len(titles, title_idx, file_names, i), items_len(titles, title_idx, file_names, i + 1))
            == menu_item_text(titles, title_idx, file_names, i) by {
            if i < n - 1 {
                assert(all.subrange(items_len(titles, title_idx, file_names, i), items_len(titles, title_idx, file_names, i + 1))
                    =~= prev.subrange(items_len(titles, title_idx, file_names, i), items_len(titles, title_idx, file_names, i + 1)));
            } else {
                assert(all.subrange(items_len(titles, title_idx, file_names, i), items_len(titles, title_idx, file_names, i + 1)) =~= item);
            }
        }
    }
}

/// When there are several pages, the page's menu lists an entry for each page, in order: the
/// entry of page `i` (a link to its file, showing its title, marked as selected for the page
/// shown) stands right after the entries of the pages before it, after the opening of the
/// menu.
#[verifier::rlimit(60)]
pub proof fn law_page_menu(titles: Seq<Seq<char>>, title_idx: int, file_names: Seq<Seq<char>>, contents: Seq<Seq<char>>)
    requires
        titles.len() > 1,
    ensures
        ({
            let page = page_text(titles, title_idx, file_names, contents);
            let start = (HEAD@ + titles[title_idx] + AFTER_TITLE@ + MENU_STYLE@ + LAYOUT_STYLE@ + MENU_NARROW_STYLE@
                + SELECTED_STYLE@ + NAV_OPEN@).len() as int;
            &&& page.subrange(start - NAV_OPEN@.len(), start) == NAV_OPEN@
            &&& forall|i: int| 0 <= i < titles.len() ==> page.subrange(start + items_len(titles, title_idx, file_names, i),
                start + items_len(titles, title_idx, file_names, i + 1)) == menu_item_text(titles, title_idx, file_names, i)
        }),
{
    let n = titles.len() as int;
    lemma_items_in_order(titles, title_idx, file_names, n);
    let page = page_text(titles, title_idx, file_names, contents);
    let pre = HEAD@ + titles[title_idx] + AFTER_TITLE@ + MENU_STYLE@ + LAYOUT_STYLE@ + MENU_NARROW_STYLE@
        + SELECTED_STYLE@ + NAV_OPEN@;
    let items = menu_items_text(titles, title_idx, file_names, n);
    let post = NAV_CLOSE@ + SECTION_OPEN@ + articles_text(contents, contents.len() as int) + END@;
    assert(page =~= pre + items + post);
    let start = pre.len() as int;
    assert(page.subrange(start - NAV_OPEN@.len(), start) =~= NAV_OPEN@);
    assert forall|i: int| 0 <= i < n implies page.subrange(start + items_len(titles, title_idx, file_names, i),
        start + items_len(titles, title_idx, file_names, i + 1)) == menu_item_text(titles, title_idx, file_names, i) by {
        assert(page.subrange(start + items_len(titles, title_idx, file_names, i), start + items_len(titles, title_idx, file_names, i + 1))
            =~= items.subrange(items_len(titles, title_idx, file_names, i), items_len(titles, title_idx, file_names, i + 1)));
    }
}

/// A page ends with every picture of `contents`, in order, each in its own article, then the
/// end of the page: picture `i` stands, with the article tags around it, right after the `i`
/// articles before it, and nothing else lies between the first article and the end.
pub proof fn law_page_articles(titles: Seq<Seq<char>>, title_idx: int, file_names: Seq<Seq<char>>, contents: Seq<Seq<char>>)
    ensures
        ({
            let page = page_text(titles, title_idx, file_names, contents);
            let end = page.len() - END@.len();
            let start = end - articles_len(contents, contents.len() as int);
            &&& 0 <= start <= end
            &&& page.subrange(end, page.len() as int) == END@
            &&& forall|i: int| 0 <= i < contents.len() ==> page.subrange(start + articles_len(contents, i), start + articles_len(contents, i + 1))
                == ARTICLE_OPEN@ + contents[i] + ARTICLE_CLOSE@
        }),
{
    let page = page_text(titles, title_idx, file_names, contents);
    let n = contents.len() as int;
    lemma_articles_in_order(contents, n);
    let arts = articles_text(contents, n);
    let multi = titles.len() > 1;
    let pre = HEAD@ + titles[title_idx] + AFTER_TITLE@ + (if multi {
        MENU_STYLE@
    } else {
        Seq::empty()
    }) + LAYOUT_STYLE@ + (if multi {
        MENU_NARROW_STYLE@
    } else {
        Seq::empty()
    }) + SELECTED_STYLE@ + (if multi {
        NAV_OPEN@ + menu_items_text(titles, title_idx, file_names, titles.len() as int) + NAV_CLOSE@
    } else {
        Seq::empty()
    }) + SECTION_OPEN@;
    assert(page =~= pre + arts + END@);
    let start = pre.len() as int;
    assert(page.len() - END@.len() - articles_len(contents, n) == start);
    assert(page.subrange(page.len() - END@.len(), page.len() as int) =~= END@);
    assert forall|i: int| 0 <= i < n implies page.subrange(start + articles_len(contents, i), start + articles_len(contents, i + 1))
        == ARTICLE_OPEN@ + contents[i] + ARTICLE_CLOSE@ by {
        assert(page.subrange(start + articles_len(contents, i), start + articles_len(contents, i + 1))
            =~= arts.subrange(articles_len(contents, i), articles_len(contents, i + 1)));
    }
}

pub struct Html {}

impl Html {
    fn push_menu(s: &mut String, titles: &Vec<String>, title_idx: usize, file_names: &Vec<String>)
        requires
            file_names@.len() >= titles@.len(),
        ensures
            final(s)@ == old(s)@ + NAV_OPEN@ + menu_items_text(
                string_views(titles@),
                title_idx as int,
                string_views(file_names@),
                titles@.len() as int,
            ) + NAV_CLOSE@,
    {
        let ghost t = string_views(titles@);
        let ghost f = string_views(file_names@);
        push_str(s, NAV_OPEN);
        let ghost s0 = s@;
        let mut i: usize = 0;
        while i < titles.len()
            invariant
                i <= titles@.len(),
                file_names@.len() >= titles@.len(),
                t == string_views(titles@),
                f == string_views(file_names@),
                s@ == s0 + menu_items_text(t, title_idx as int, f, i as int),
            decreases titles@.len() - i,
        {
            let ghost before = s@;
            if i == title_idx {
                push_str(s, ITEM_SELECTED);
            } else {
                push_str(s, ITEM);
            }
            push_str(s, LINK_PRE);
            push_str(s, file_names[i].as_str());
            push_str(s, LINK_MID);
            push_str(s, titles[i].as_str());
            push_str(s, LINK_POST);
            push_str(s, ITEM_CLOSE);
            assert(s@ =~= before + menu_item_text(t, title_idx as int, f, i as int));
            i = i + 1;
        }
        push_str(s, NAV_CLOSE);
    }

    fn push_articles(s: &mut String, contents: &Vec<String>)
        ensures
            final(s)@ == old(s)@ + articles_text(string_views(contents@), contents@.len() as int),
    {
        let ghost c = string_views(contents@);
        let ghost s0 = s@;
        let mut i: usize = 0;
        while i < contents.len()
            invariant
                i <= contents@.len(),
                c == string_views(contents@),
                s@ == s0 + articles_text(c, i as int),
            decreases contents@.len() - i,
        {
            let ghost before = s@;
            push_str(s, ARTICLE_OPEN);
            push_str(s, contents[i].as_str());
            push_str(s, ARTICLE_CLOSE);
            assert(s@ =~= before + ARTICLE_OPEN@ + c[i as int] + ARTICLE_CLOSE@);
            i = i + 1;
        }
    }

    /// The HTML page of title `titles[title_idx]` that shows the pictures `contents` side by
    /// side; when there are several pages, a menu links to the files `file_names` (one per
    /// title, without the `.html` extension).
    pub fn render_flexbox(
        titles: &Vec<String>,
        title_idx: usize,
        file_names: &Vec<String>,
        contents: Vec<String>,
    ) -> (html: String)
        requires
            title_idx < titles@.len(),
            titles@.len() > 1 ==> file_names@.len() >= titles@.len(),
        ensures
            html@ == page_text(
                string_views(titles@),
                title_idx as int,
                string_views(file_names@),
                string_views(contents@),
            ),
    {
        let multi = titles.len() > 1;
        let mut html = String::new();
        push_str(&mut html, HEAD);
        push_str(&mut html, titles[title_idx].as_str());
        push_str(&mut html, AFTER_TITLE);
        let ghost p1 = html@;
        if multi {
            push_str(&mut html, MENU_STYLE);
        }
        let ghost p2 = html@;
        push_str(&mut html, LAYOUT_STYLE);
        let ghost p3 = html@;
        if multi {
            push_str(&mut html, MENU_NARROW_STYLE);
        }
        let ghost p4 = html@;
        push_str(&mut html, SELECTED_STYLE);
        let ghost p5 = html@;
        if multi {
            Self::push_menu(&mut html, titles, title_idx, file_names);
        }
        let ghost p6 = html@;
        push_str(&mut html, SECTION_OPEN);
        Self::push_articles(&mut html, &contents);
        push_str(&mut html, END);
        proof {
            let t = string_views(titles@);
            assert(t[title_idx as int] == titles@[title_idx as int]@);
            assert(p2 =~= p1 + (if multi { MENU_STYLE@ } else { Seq::<char>::empty() }));
            assert(p4 =~= p3 + (if multi { MENU_NARROW_STYLE@ } else { Seq::<char>::empty() }));
            assert(p6 =~= p5 + (if multi {
                NAV_OPEN@ + menu_items_text(t, title_idx as int, string_views(file_names@), titles@.len() as int) + NAV_CLOSE@
            } else {
                Seq::<char>::empty()
            }));
        }
        html
    }
}


/// The name of the file of the page titled `title`: its spaces become underscores.
pub open spec fn file_name_text(title: Seq<char>) -> Seq<char> {
    title.map_values(|c: char| if c == ' ' { '_' } else { c })
}

impl Html {
    /// The name of the file of the page titled `title` (its spaces become underscores).
    pub fn file_name(title: &str) -> (s: String)
        ensures
            s@ == file_name_text(title@),
    {
        let chars = crate::config::chars_of(title);
        let mut s = String::new();
        let mut i: usize = 0;
        while i < chars.len()
            invariant
                chars@ == title@,
                i <= chars@.len(),
                s@ == file_name_text(title@.take(i as int)),
            decreases chars@.len() - i,
        {
            let c = chars[i];
            crate::text::push_char(&mut s, if c == ' ' { '_' } else { c });
            assert(file_name_text(title@.take(i + 1)) =~= file_name_text(title@.take(i as int)).push(if c == ' ' { '_' } else { c }));
            i = i + 1;
        }
        assert(title@.take(i as int) =~= title@);
        s
    }
}

} // verus!
