use mkd::document::parse_document;
use mkd::editor::Editor;
use mkd::markdown::Block;
use mkd::ops::{BlockType, Direction, ListKind, Mark, Op};

// ---- 测试 DSL：`|` 表示光标 ----

/// 从带光标标注的字符串构造编辑器。
fn setup(src: &str) -> Editor {
    let mut cursor: Option<(usize, usize)> = None;
    let mut lines: Vec<String> = Vec::new();
    for (li, raw) in src.split('\n').enumerate() {
        if let Some(pos) = raw.find('|') {
            assert!(cursor.is_none(), "only one cursor allowed");
            cursor = Some((li, pos));
            let mut l = raw.to_string();
            l.remove(pos);
            lines.push(l);
        } else {
            lines.push(raw.to_string());
        }
    }
    let mut e = Editor::new(&lines.join("\n"));
    if let Some((l, c)) = cursor {
        e.cursor_line = l;
        e.cursor_col = c;
    }
    e
}

/// 渲染编辑器源码 + 光标位置。
fn render(e: &Editor) -> String {
    let mut out = String::new();
    for (i, line) in e.lines.iter().enumerate() {
        if i == e.cursor_line {
            let col = e.cursor_col.min(line.len());
            out.push_str(&line[..col]);
            out.push('|');
            out.push_str(&line[col..]);
        } else {
            out.push_str(line);
        }
        if i + 1 < e.lines.len() {
            out.push('\n');
        }
    }
    out
}

fn assert_edit(input: &str, ops: &[Op], expected: &str) {
    let mut e = setup(input);
    for op in ops {
        e.apply(op);
    }
    assert_eq!(render(&e), expected, "input={input:?} ops={ops:?}");
}

// 便捷 op 构造
fn ty(s: &str) -> Op {
    Op::Type(s.to_string())
}
fn mv(d: Direction, extend: bool) -> Op {
    Op::Move(d, extend)
}

// ================= 2.3 文本输入 =================

#[test]
fn insert_plain() {
    assert_edit("|abc", &[ty("X")], "X|abc");
    assert_edit("ab|c", &[ty("X")], "abX|c");
    assert_edit("abc|", &[ty("X")], "abcX|");
}

#[test]
fn insert_multibyte_cjk() {
    assert_edit("|你好", &[ty("世")], "世|你好");
    assert_edit("你|好", &[ty("界")], "你界|好");
}

#[test]
fn insert_emoji() {
    assert_edit("|ab", &[ty("🚀")], "🚀|ab");
    // emoji 是单字符，光标不在中间
    assert_edit("🚀|ab", &[ty("x")], "🚀x|ab");
}

#[test]
fn insert_mid_bold_preserves_markers() {
    // 在 **bold** 内部插入，标记保持闭合
    assert_edit("**bo|ld**", &[ty("X")], "**boX|ld**");
    assert_edit("**|bold**", &[ty("X")], "**X|bold**");
    // 标记内插入 CJK
    assert_edit("**加|粗**", &[ty("X")], "**加X|粗**");
}

#[test]
fn insert_replaces_selection() {
    // 选区输入替换：用 move+shift 构造选区
    let mut e = setup("ab|cd");
    e.apply(&mv(Direction::Left, true)); // 选中 b
    e.apply(&mv(Direction::Left, true)); // 选中 ab
    e.apply(&ty("X"));
    assert_eq!(render(&e), "X|cd");
}

#[test]
fn paste_multiline() {
    // 多行粘贴拆分
    assert_edit("a|b", &[Op::Paste("x\ny".into())], "ax\ny|b");
    assert_edit("|ab", &[Op::Paste("1\n2\n3".into())], "1\n2\n3|ab");
}

#[test]
fn paste_does_not_trigger_input_rule() {
    // 粘贴不触发输入规则（不把粘贴内容当刚输入）
    let mut e = setup("|");
    e.apply(&Op::Paste("- ".into()));
    // 源码是 "- "，样式是列表，但不算「刚输入规则」
    assert_eq!(e.undo_depth(), 1);
}

// ================= 2.12 回车 / 段落语义 =================

#[test]
fn enter_mid_paragraph_inserts_blank_line() {
    // 段落中间回车 → 拆成两段（中间空行）
    assert_edit("hello|world", &[Op::Newline], "hello\n\n|world");
}

#[test]
fn enter_end_paragraph_with_following_text() {
    // 行尾回车且下一行非空 → 插入空行分隔
    let mut e = setup("foo|\nbar");
    e.apply(&Op::Newline);
    assert_eq!(render(&e), "foo\n|\nbar");
}

#[test]
fn enter_end_paragraph_plain() {
    // 行尾回车且无后续 → 普通新行
    let mut e = setup("foo|");
    e.apply(&Op::Newline);
    assert_eq!(render(&e), "foo\n|");
}

#[test]
fn enter_start_of_line() {
    // 行首回车 → 上方插入空行
    let mut e = setup("|foo");
    e.apply(&Op::Newline);
    assert_eq!(render(&e), "\n|foo");
}

#[test]
fn hard_break_appends_two_spaces() {
    // Shift+Enter 硬换行（行尾两空格）
    assert_edit("foo|bar", &[Op::HardBreak], "foo  \n|bar");
    // 已有两空格不重复
    assert_edit("foo  |bar", &[Op::HardBreak], "foo  \n|bar");
}

#[test]
fn enter_in_empty_line() {
    // 空行回车 → 普通新行
    let mut e = setup("|");
    e.apply(&Op::Newline);
    assert_eq!(render(&e), "\n|");
}

// ================= 2.8 撤销 / 重做 =================

#[test]
fn undo_restores_document_and_cursor() {
    // 撤销恢复文档与光标
    let mut e = setup("|abc");
    e.apply(&ty("X"));
    e.apply(&ty("Y"));
    assert_eq!(render(&e), "XY|abc");
    assert_eq!(e.undo_depth(), 1, "X 与 Y 合并为一步");
    e.apply(&Op::Undo);
    assert_eq!(render(&e), "|abc");
    assert_eq!(e.undo_depth(), 0);
}

#[test]
fn redo_restores() {
    let mut e = setup("|abc");
    e.apply(&ty("X"));
    e.apply(&Op::Undo);
    e.apply(&Op::Redo);
    assert_eq!(render(&e), "X|abc");
}

#[test]
fn editing_after_undo_clears_redo() {
    // 撤销后编辑清空 redo
    let mut e = setup("|abc");
    e.apply(&ty("X"));
    e.apply(&Op::Undo);
    assert_eq!(e.redo_depth(), 1);
    e.apply(&ty("Z"));
    assert_eq!(e.redo_depth(), 0);
}

#[test]
fn consecutive_typing_merges_into_one_undo_step() {
    // 连续键入合并
    let mut e = setup("|");
    e.apply(&ty("h"));
    e.apply(&ty("e"));
    e.apply(&ty("l"));
    assert_eq!(e.undo_depth(), 1, "three chars = one step");
    e.apply(&Op::Undo);
    assert_eq!(render(&e), "|");
}

#[test]
fn structural_change_breaks_merge() {
    // 回车是结构变化，不合并
    let mut e = setup("|a");
    e.apply(&ty("x"));
    e.apply(&Op::Newline);
    e.apply(&ty("y"));
    assert_eq!(e.undo_depth(), 3, "typing/newline/typing 各一步");
    // 全撤销回初始
    e.apply(&Op::Undo);
    e.apply(&Op::Undo);
    e.apply(&Op::Undo);
    assert_eq!(render(&e), "|a");
}

// ================= 2.5 输入规则 =================

#[test]
fn input_rule_bullet_then_backspace_undoes() {
    // 输入 "- " 变列表，Backspace 回退
    let mut e = setup("|");
    e.apply(&ty("-"));
    e.apply(&ty(" "));
    let style = mkd::line::parse_line(&e.lines[0], false).line_style;
    assert_eq!(style, mkd::line::LineStyle::Bullet);
    // 空列表项上 Backspace 回退标记
    e.apply(&Op::Backspace);
    assert_eq!(render(&e), "|");
}

#[test]
fn input_rule_heading() {
    let mut e = setup("|");
    e.apply(&ty("#"));
    e.apply(&ty(" "));
    let style = mkd::line::parse_line(&e.lines[0], false).line_style;
    assert_eq!(style, mkd::line::LineStyle::Heading(1));
}

#[test]
fn input_rule_ordered() {
    let mut e = setup("|");
    e.apply(&ty("1"));
    e.apply(&ty("."));
    e.apply(&ty(" "));
    let style = mkd::line::parse_line(&e.lines[0], false).line_style;
    assert_eq!(style, mkd::line::LineStyle::Ordered);
}

#[test]
fn input_rule_quote() {
    let mut e = setup("|");
    e.apply(&ty(">"));
    e.apply(&ty(" "));
    let style = mkd::line::parse_line(&e.lines[0], false).line_style;
    assert_eq!(style, mkd::line::LineStyle::Quote);
}

#[test]
fn input_rule_fence() {
    let mut e = setup("|");
    e.apply(&ty("`"));
    e.apply(&ty("`"));
    e.apply(&ty("`"));
    let style = mkd::line::parse_line(&e.lines[0], false).line_style;
    assert_eq!(style, mkd::line::LineStyle::Fence);
}

#[test]
fn input_rule_rule() {
    let mut e = setup("|");
    for c in ['-', '-', '-'] {
        e.apply(&ty(&c.to_string()));
    }
    let style = mkd::line::parse_line(&e.lines[0], false).line_style;
    assert_eq!(style, mkd::line::LineStyle::Rule);
}

// ================= 2.6 列表行为 =================

#[test]
fn list_enter_continues_with_marker() {
    // 列表项内回车 → 新列表项
    let mut e = setup("- item|");
    e.apply(&Op::Newline);
    assert_eq!(render(&e), "- item\n- |");
}

#[test]
fn list_enter_empty_exits() {
    // 空列表项回车 → 退出列表
    let mut e = setup("- |");
    e.apply(&Op::Newline);
    assert_eq!(render(&e), "- \n|");
}

#[test]
fn ordered_list_enter_increments() {
    let mut e = setup("1. item|");
    e.apply(&Op::Newline);
    assert_eq!(render(&e), "1. item\n2. |");
}

#[test]
fn ordered_list_start_number_preserved() {
    // start 序号延续
    let mut e = setup("3. item|");
    e.apply(&Op::Newline);
    assert_eq!(render(&e), "3. item\n4. |");
}

#[test]
fn nested_list_enter_keeps_indent() {
    let mut e = setup("  - item|");
    e.apply(&Op::Newline);
    assert_eq!(render(&e), "  - item\n  - |");
}

#[test]
fn tab_indents_list_item() {
    // Tab 缩进嵌套
    let mut e = setup("- |item");
    // 光标在标记后
    e.cursor_col = 2;
    e.apply(&Op::Tab);
    assert_eq!(render(&e), "    - |item");
}

#[test]
fn shift_tab_lifts_list_item() {
    let mut e = setup("    - |item");
    e.cursor_col = 6;
    e.apply(&Op::ShiftTab);
    assert_eq!(render(&e), "- |item");
}

#[test]
fn quote_enter_continues() {
    // 引用续行
    let mut e = setup("> quote|");
    e.apply(&Op::Newline);
    assert_eq!(render(&e), "> quote\n> |");
}

// ================= 2.4 格式化 =================

#[test]
fn toggle_bold_wraps_selection() {
    let mut e = setup("abc|def");
    // 选中 abc：左移3
    e.apply(&mv(Direction::Left, true));
    e.apply(&mv(Direction::Left, true));
    e.apply(&mv(Direction::Left, true));
    e.apply(&Op::ToggleMark(Mark::Bold));
    assert_eq!(render(&e), "**abc**|def");
}

#[test]
fn toggle_bold_unwraps() {
    let mut e = setup("**abc**|");
    e.sel_start = Some((0, 0));
    e.cursor_col = 7; // 选中 **abc**（长度 7）
    e.apply(&Op::ToggleMark(Mark::Bold));
    assert_eq!(render(&e), "abc|");
}

#[test]
fn toggle_italic_and_code() {
    let mut e = setup("abc|def");
    for _ in 0..3 {
        e.apply(&mv(Direction::Left, true));
    }
    e.apply(&Op::ToggleMark(Mark::Italic));
    assert_eq!(render(&e), "*abc*|def");
    let mut e2 = setup("abc|def");
    for _ in 0..3 {
        e2.apply(&mv(Direction::Left, true));
    }
    e2.apply(&Op::ToggleMark(Mark::Code));
    assert_eq!(render(&e2), "`abc`|def");
}

#[test]
fn toggle_mark_at_cursor_sets_pending() {
    // 光标处切换 = 设置输入态，后续输入带标记
    let mut e = setup("|");
    e.apply(&Op::ToggleMark(Mark::Bold));
    assert_eq!(e.pending_marks, vec![Mark::Bold]);
    e.apply(&ty("hi"));
    assert_eq!(render(&e), "**hi**|");
}

#[test]
fn insert_link_wraps_selection() {
    let mut e = setup("abc|def");
    for _ in 0..3 {
        e.apply(&mv(Direction::Left, true));
    }
    e.apply(&Op::InsertLink);
    assert_eq!(render(&e), "[abc](url|)def");
}

#[test]
fn set_heading_block_type() {
    let mut e = setup("hello|");
    e.apply(&Op::SetBlockType(BlockType::Heading(2)));
    assert_eq!(render(&e), "## hello|");
    // 再次设为标题不变
    e.apply(&Op::SetBlockType(BlockType::Heading(2)));
    assert_eq!(render(&e), "## hello|");
    // 设为段落去掉标记
    e.apply(&Op::SetBlockType(BlockType::Paragraph));
    assert_eq!(render(&e), "hello|");
}

#[test]
fn set_code_block_wraps() {
    let mut e = setup("let x = 1|");
    e.apply(&Op::SetBlockType(BlockType::CodeBlock));
    assert_eq!(render(&e), "```\nlet x = 1|\n```");
}

#[test]
fn wrap_selection_as_bullet_list() {
    let mut e = setup("line1|\nline2");
    e.cursor_line = 1;
    e.cursor_col = 0;
    e.sel_start = Some((0, 0));
    e.cursor_col = 5;
    e.apply(&Op::WrapList(ListKind::Bullet));
    assert_eq!(render(&e), "- line1\n- line2|");
}

#[test]
fn wrap_current_line_as_task() {
    let mut e = setup("todo|");
    e.apply(&Op::WrapList(ListKind::Task));
    assert_eq!(render(&e), "- [ ] todo|");
}

// ================= 光标导航 =================

#[test]
fn move_boundaries_emoji() {
    // 不在 emoji 中间停
    let mut e = setup("a🚀|b");
    e.apply(&mv(Direction::Left, false));
    assert_eq!(render(&e), "a|🚀b");
}

#[test]
fn move_cross_line() {
    // 行尾→下一行、行首→上一行
    let mut e = setup("abc|\ndef");
    e.apply(&mv(Direction::Right, false));
    assert_eq!(render(&e), "abc\n|def");
    let mut e = setup("abc\n|def");
    e.apply(&mv(Direction::Left, false));
    assert_eq!(render(&e), "abc|\ndef");
}

#[test]
fn nav07_word_movement() {
    // Option+方向键词移动
    let mut e = setup("|hello world");
    e.move_word_right();
    assert_eq!(e.cursor_col, 6, "跳到下一个词开头");
    e.move_word_right();
    assert_eq!(e.cursor_col, 11, "行尾");
    e.move_word_left();
    assert_eq!(e.cursor_col, 6, "回到词开头");
    e.move_word_left();
    assert_eq!(e.cursor_col, 0, "行首");
    // 中文按字移动
    let mut e = setup("|你好世界");
    e.move_word_right();
    assert_eq!(e.cursor_col, 3, "中文每个字一个词边界");
    // 连续空白
    let mut e = setup("|a   b");
    e.move_word_right();
    assert_eq!(e.cursor_col, 4, "跨过连续空格到 b");
}

#[test]
fn und05_history_cap() {
    // 撤销历史上限 100
    let mut e = setup("|");
    for _ in 0..110 {
        e.apply(&Op::Newline);
    }
    assert_eq!(e.undo_depth(), 100, "undo 栈应被裁剪到上限");
    // 仍可撤销并恢复
    e.apply(&Op::Undo);
    assert_eq!(e.lines.len(), 110);
    e.apply(&Op::Undo);
    assert_eq!(e.lines.len(), 109);
}

#[test]
fn drg01_move_range() {
    // 移动：源前（选中 "world" → 拖到行首）
    let mut e = setup("hello world!|");
    e.sel_start = Some((0, 6));
    e.cursor_col = 11;
    e.apply(&Op::MoveRange { from: (0, 6, 0, 11), to: (0, 0), copy: false });
    assert_eq!(render(&e), "world|hello !");
    // 复制（Option+拖）
    let mut e = setup("hello world!|");
    e.sel_start = Some((0, 6));
    e.cursor_col = 11;
    e.apply(&Op::MoveRange { from: (0, 6, 0, 11), to: (0, 0), copy: true });
    assert_eq!(render(&e), "world|hello world!");
    // 目标在源之后：偏移修正（"ab" 移到 cd 后）
    let mut e = setup("abcd|");
    e.sel_start = Some((0, 0));
    e.cursor_col = 2;
    e.apply(&Op::MoveRange { from: (0, 0, 0, 2), to: (0, 3), copy: false });
    assert_eq!(render(&e), "ca|bd");
    // 目标在源内部：无操作
    let mut e = setup("abcd|");
    e.sel_start = Some((0, 0));
    e.cursor_col = 4;
    e.apply(&Op::MoveRange { from: (0, 0, 0, 4), to: (0, 2), copy: false });
    assert_eq!(render(&e), "abcd|");
    // 跨行移动（选中 "b\nc" → 拖到首行开头）
    let mut e = setup("ab\ncd|");
    e.sel_start = Some((0, 1));
    e.cursor_line = 1;
    e.cursor_col = 1;
    e.apply(&Op::MoveRange { from: (0, 1, 1, 1), to: (0, 0), copy: false });
    assert_eq!(render(&e), "b\nc|ad");
    // 跨行移动到源之后（目标偏移修正）
    let mut e = setup("ab\ncd|");
    e.sel_start = Some((0, 1));
    e.cursor_line = 1;
    e.cursor_col = 1;
    e.apply(&Op::MoveRange { from: (0, 1, 1, 1), to: (1, 1), copy: false });
    // to (1,1) 在源后：tl=0,tc=1。删除 → "ad"，插入 (0,1)："a"+"b\nc"+"d"
    assert_eq!(render(&e), "ab\nc|d");
}

#[test]
fn select_all_sets_range() {
    let mut e = setup("a\nb|");
    e.apply(&Op::SelectAll);
    assert_eq!(e.sel_start, Some((0, 0)));
    assert_eq!((e.cursor_line, e.cursor_col), (1, 1));
}

// ================= 不变量 =================

#[test]
fn roundtrip_source() {
    // load → to_source 字节级一致
    let samples = [
        "# 标题\n\n正文 **加粗** 和 *斜体*\n\n- a\n- b\n",
        "```rust\nfn main() {}\n```\n",
        "> 引用\n\n| 表格 |\n",
        "",
        "  缩进行\n",
    ];
    for src in samples {
        let e = Editor::new(src);
        assert_eq!(e.to_source(), src, "roundtrip {src:?}");
    }
}

#[test]
fn marks_balanced_after_edits() {
    // 不变量：任意编辑后 ** * ` ~~ == 配对平衡
    let cases = [
        (vec![ty("**a**"), mv(Direction::Left, false), ty("X")], "**aX**"),
        (vec![ty("**b"), mv(Direction::Left, false), ty("y")], "**by"),
        (vec![ty("~~x~~"), Op::Backspace], "~~x~"),
    ];
    for (ops, _label) in cases {
        let mut e = Editor::new("");
        for op in &ops {
            e.apply(op);
        }
        for (open, close) in [("**", "**"), ("`", "`"), ("~~", "~~")] {
            let n_open = e.to_source().matches(open).count();
            let n_close = e.to_source().matches(close).count();
            assert_eq!(n_open, n_close, "balanced {open} in {:?}", e.to_source());
        }
    }
}
// ================= 视觉列 =================

#[test]
fn up_down_preserves_visual_column() {
    // 从 "abcdef" 第 3 列向下到短行（截断到行尾），再向上恢复记忆列
    let mut e = setup("abc|def\nab");
    e.apply(&mv(Direction::Down, false));
    assert_eq!(render(&e), "abcdef\nab|");
    e.apply(&mv(Direction::Up, false));
    assert_eq!(render(&e), "abc|def\nab");
}

#[test]
fn up_down_across_marked_lines() {
    // **ab** 显示宽度 2，向上对齐到 "12345" 的第 2 列
    let mut e = setup("12345\n**ab**|");
    e.apply(&mv(Direction::Up, false));
    assert_eq!(render(&e), "12|345\n**ab**");
}

// ================= 标记原子删除 =================

#[test]
fn backspace_deletes_marker_pair() {
    let mut e = setup("**|");
    e.apply(&Op::Backspace);
    assert_eq!(render(&e), "|");
    let mut e2 = setup("~~|");
    e2.apply(&Op::Backspace);
    assert_eq!(render(&e2), "|");
    let mut e3 = setup("==|");
    e3.apply(&Op::Backspace);
    assert_eq!(render(&e3), "|");
}

#[test]
fn backspace_deletes_single_marker() {
    let mut e = setup("`|");
    e.apply(&Op::Backspace);
    assert_eq!(render(&e), "|");
    let mut e2 = setup("*|");
    e2.apply(&Op::Backspace);
    assert_eq!(render(&e2), "|");
}

#[test]
fn backspace_marker_keeps_other_side() {
    let mut e = setup("**|bold**");
    e.apply(&Op::Backspace);
    assert_eq!(render(&e), "|bold**");
}

#[test]
fn backspace_inside_code_fence_is_plain() {
    let mut e = setup("```\n**|\n```");
    e.cursor_line = 1;
    e.cursor_col = 2;
    e.apply(&Op::Backspace);
    assert_eq!(render(&e), "```\n*|\n```");
}

// ================= 引用/标题/代码围栏 回车与 Tab =================

#[test]
fn quote_enter_empty_exits() {
    let mut e = setup("> |");
    e.apply(&Op::Newline);
    assert_eq!(render(&e), "> \n|");
}

#[test]
fn heading_enter_splits_plain() {
    let mut e = setup("## title|");
    e.apply(&Op::Newline);
    assert_eq!(render(&e), "## title\n|");
}

#[test]
fn enter_in_code_fence_plain_newline() {
    let mut e = setup("```\nlet x = 1|\n```");
    e.cursor_line = 1;
    e.cursor_col = 9;
    e.apply(&Op::Newline);
    assert_eq!(render(&e), "```\nlet x = 1\n|\n```");
}

#[test]
fn tab_in_code_fence_inserts_spaces() {
    let mut e = setup("```\n|code\n```");
    e.cursor_line = 1;
    e.apply(&Op::Tab);
    assert_eq!(render(&e), "```\n    |code\n```");
}

// ================= 撤销边界 =================

#[test]
fn undo_input_rule_list() {
    let mut e = setup("|");
    e.apply(&ty("-"));
    e.apply(&ty(" "));
    e.apply(&ty("item"));
    assert_eq!(e.undo_depth(), 1);
    e.apply(&Op::Undo);
    assert_eq!(render(&e), "|");
}

#[test]
fn undo_paste_is_single_step() {
    let mut e = setup("|");
    e.apply(&Op::Paste("a\nb\nc".into()));
    assert_eq!(e.undo_depth(), 1);
    e.apply(&Op::Undo);
    assert_eq!(render(&e), "|");
}

#[test]
fn formatting_is_undoable() {
    let mut e = setup("abc|");
    e.sel_start = Some((0, 0));
    e.cursor_col = 3;
    e.apply(&Op::ToggleMark(Mark::Bold));
    assert_eq!(render(&e), "**abc**|");
    e.apply(&Op::Undo);
    assert_eq!(render(&e), "abc|");
}

// ================= 块类型 =================

#[test]
fn set_quote_block() {
    let mut e = setup("hello|");
    e.apply(&Op::SetBlockType(BlockType::Quote));
    assert_eq!(render(&e), "> hello|");
    e.apply(&Op::SetBlockType(BlockType::Paragraph));
    assert_eq!(render(&e), "hello|");
}

#[test]
fn heading_empty_line_sets_marker() {
    let mut e = setup("|");
    e.apply(&Op::SetBlockType(BlockType::Heading(3)));
    assert_eq!(render(&e), "### |");
}

// ================= 选区转列表 =================

#[test]
fn wrap_multi_line_ordered_list() {
    let mut e = setup("a\nb|");
    e.sel_start = Some((0, 0));
    e.cursor_col = 1;
    e.apply(&Op::WrapList(ListKind::Ordered));
    assert_eq!(render(&e), "1. a\n2. b|");
}

// ================= SEL 选区增强 =================

#[test]
fn double_click_selects_word() {
    // 双击选词（显示文本词边界，映射回源码）
    let mut e = setup("hello **world** here|");
    // 光标在 "world" 内（显示位置）
    e.select_word_at(0, 8); // "world" 在 display 的 6..11
    let sel = e.selected_text().unwrap();
    assert_eq!(sel, "world");
}

#[test]
fn double_click_selects_cjk_word() {
    let mut e = setup("这是 **中文** 测试|");
    e.select_word_at(0, 3);
    assert_eq!(e.selected_text().unwrap(), "中文");
}

#[test]
fn triple_click_selects_line() {
    // 三击选整行
    let mut e = setup("hello world|");
    e.select_line_at(0);
    assert_eq!(e.selected_text().unwrap(), "hello world");
}

#[test]
fn shift_click_extends_selection() {
    // Shift+点击扩展：由 UI 层处理，逻辑层验证选区锚定
    let mut e = setup("abcdef|");
    e.sel_start = Some((0, 0));
    e.cursor_col = 3;
    assert_eq!(e.selected_text().unwrap(), "abc");
}

// ================= REN 双渲染器一致性 =================

fn collect(b: &Block, out: &mut String) {
    match b {
        Block::Paragraph { inline, .. } => out.push_str(&inline.0),
        Block::Heading { inline, .. } => out.push_str(&inline.0),
        Block::List { items, .. } => {
            for it in items {
                for b in it {
                    collect(b, out);
                }
            }
        }
        Block::Quote(inner) => {
            for b in inner {
                collect(b, out);
            }
        }
        Block::Code { text, .. } => out.push_str(text),
        Block::Table { head, rows } => {
            for c in head {
                out.push_str(&c.0);
            }
            for r in rows {
                for c in r {
                    out.push_str(&c.0);
                }
            }
        }
        _ => {}
    }
}

/// 提取预览文档的纯文本。
fn preview_text(src: &str) -> String {
    let doc = parse_document(src);
    let mut out = String::new();
    for b in &doc.blocks {
        collect(b, &mut out);
    }
    out
}

#[test]
fn render_parity_core_inline() {
    // 核心行内语法，编辑视图与预览文本一致
    let cases = [
        "hello world",
        "**bold** and *italic*",
        "***both***",
        "`code` here",
        "~~strike~~",
        "[link](https://a.b) text",
        "# heading",
        "## sub heading",
        "> quote",
    ];
    for src in cases {
        let editor = mkd::line::parse_line(src, false).display;
        let preview = preview_text(src);
        assert_eq!(
            editor.trim(),
            preview.trim(),
            "render parity for {src:?}"
        );
    }
}

#[test]
fn render_parity_known_divergences() {
    // 编辑视图与预览对 ==mark== 与上下标的处理一致
    // 1. ==mark==：两边都去标记显示（parse_inline 的 split_mark 双端一致）
    let e = mkd::line::parse_line("==mark==", false).display;
    assert_eq!(e, "mark");
    let p = preview_text("==mark==");
    assert_eq!(p, "mark", "预览与编辑视图一致");
    // 2. 上下标：编辑视图与预览都去标记，一致
    let e2 = mkd::line::parse_line("H~2~O", false).display;
    assert_eq!(e2, "H2O");
    let p2 = preview_text("H~2~O");
    assert_eq!(p2, "H2O", "预览与编辑视图一致");
    let e3 = mkd::line::parse_line("E=mc^2^", false).display;
    assert_eq!(e3, "E=mc2");
}

// ================= macOS 编辑键 =================

#[test]
fn ctrl_k_delete_to_line_end() {
    let mut e = setup("hello |world");
    e.cursor_col = 6;
    e.apply(&Op::DeleteToLineEnd);
    assert_eq!(render(&e), "hello |");
}

#[test]
fn ctrl_u_delete_to_line_start() {
    let mut e = setup("hello |world");
    e.cursor_col = 6;
    e.apply(&Op::DeleteToLineStart);
    assert_eq!(render(&e), "|world");
}

#[test]
fn ctrl_w_delete_word_back() {
    let mut e = setup("hello world|");
    e.apply(&Op::DeleteWordBack);
    assert_eq!(render(&e), "hello |");
    // 多空白
    let mut e2 = setup("a   b|");
    e2.apply(&Op::DeleteWordBack);
    assert_eq!(render(&e2), "a |");
}

#[test]
fn alt_delete_delete_word_forward() {
    let mut e = setup("|hello world");
    e.apply(&Op::DeleteWordForward);
    assert_eq!(render(&e), "| world");
}

#[test]
fn delete_to_line_undoable() {
    let mut e = setup("hello |world");
    e.cursor_col = 6;
    e.apply(&Op::DeleteToLineEnd);
    e.apply(&Op::Undo);
    assert_eq!(render(&e), "hello |world");
}
