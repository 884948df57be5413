use permafrost::code_parser::{parse_assignment, FunctionParser};

#[test]
fn test_parse_assignment() {
    let line = "let df = fr.read_sheet();";
    assert_eq!(parse_assignment(line, "fr"), Some(vec!["df".to_string()]));
}

#[test]
fn test_multiline_chain() {
    let code = r#"
            let df = fr.read_sheet();
            let result = df
                .filter()
                .groupBy()
                .set_column("x", df.apply());
        "#;
    let mut parser = FunctionParser::new();
    parser.parse(code, "df");

    assert!(parser.functions.contains("filter"));
    assert!(parser.functions.contains("groupBy"));
    assert!(parser.functions.contains("set_column"));
    assert!(parser.functions.contains("apply"));
}

#[test]
fn parses_separate_statements() {
    let code = r#"
            let df = fr.read_sheet();
            df.print();
        "#;
    let mut parser = FunctionParser::new();
    parser.parse(code, "fr");

    assert!(parser.functions.contains("print"));
}

#[test]
fn parser_shadows() {
    let code = r#"
            let df = fr.read_sheet()
            let df_renamed = df.rename();
            df_renamed.to_csv();
        "#;
    let mut parser = FunctionParser::new();
    parser.parse(code, "fr");

    assert!(parser.functions.contains("rename"));
    assert!(parser.functions.contains("to_csv"));
}

#[test]
fn parses_single_line_chain(){
    let code = "let df = fr.read_sheet().filter()";
    let mut parser = FunctionParser::new();
    parser.parse(code, "fr");

    assert!(parser.functions.contains("read_sheet"));
    assert!(parser.functions.contains("filter"));
}

#[test]
fn parses_multiple_statements_same_line() {
    let code = "let df = fr.read_csv(); df.filter().groupBy(); df.print();";
    let mut parser = FunctionParser::new();
    parser.parse(code, "fr");

    assert!(parser.functions.contains("read_csv"));
    assert!(parser.functions.contains("filter"));
    assert!(parser.functions.contains("groupBy"));
    assert!(parser.functions.contains("print"));
}

#[test]
fn parses_irregular_whitespace() {
    let code = r#"
            let    df = fr.read_sheet( );
            df     .     filter (  )
                . groupBy ( );
        "#;
    let mut parser = FunctionParser::new();
    parser.parse(code, "fr");

    assert!(parser.functions.contains("read_sheet"));
    assert!(parser.functions.contains("filter"));
    assert!(parser.functions.contains("groupBy"));
}

#[test]
fn parser_finds_nested_calls() {
    let code = r#"
            let df = fr.read_sheet();
            let x = df.set("col", df.apply());
        "#;
    let mut parser = FunctionParser::new();
    parser.parse(code, "fr");

    assert!(parser.functions.contains("read_sheet"));
    assert!(parser.functions.contains("set"));
    assert!(parser.functions.contains("apply"));
}

#[test]
fn parser_supports_const_assignment() {
    let code = r#"
            const df = fr.read_sheet();
            df.print();
        "#;
    let mut parser = FunctionParser::new();
    parser.parse(code, "fr");

    assert!(parser.functions.contains("read_sheet"));
    assert!(parser.functions.contains("print"));
}

#[test]
fn parser_ignores_unrelated_code() {
    let code = r#"
            function hello() { return 5; }
            const not_tracked = "df.fake().call()";
        "#;
    let mut parser = FunctionParser::new();
    parser.parse(code, "fr");

    assert_eq!(parser.functions.is_empty(), true);
}

#[test]
fn parser_finds_methods(){
    let code = r#"
            const now = fr.today;
        "#;
    let mut parser = FunctionParser::new();
    parser.parse(code, "fr");
    assert!(parser.functions.contains("today"))
}

#[test]
fn parser_ignores_subcalls_of_df_methods(){
    let code = r#"
            this.values.map();
        "#;
    let mut parser = FunctionParser::new();
    parser.parse(code, "this");
    assert!(parser.functions.is_empty());
}

#[test]
fn parses_single_line_chain_without_semicolon() {
    let code = r#"
            let df = fr.read_sheet()
            df.filter().groupBy()
        "#;
    let mut parser = FunctionParser::new();
    parser.parse(code, "fr");

    assert!(parser.functions.contains("read_sheet"));
    assert!(parser.functions.contains("filter"));
    assert!(parser.functions.contains("groupBy"));
}

#[test]
fn parses_mixed_semicolon_usage() {
    let code = r#"
            let df = fr.read_sheet()
            df.filter();
            df.groupBy()
        "#;
    let mut parser = FunctionParser::new();
    parser.parse(code, "fr");

    assert!(parser.functions.contains("read_sheet"));
    assert!(parser.functions.contains("filter"));
    assert!(parser.functions.contains("groupBy"));
}

#[test]
fn parses_multiline_chain_without_semicolon() {
    let code = r#"
            let df = fr.read_sheet()
            df
            .filter()
            .groupBy()
        "#;
    let mut parser = FunctionParser::new();
    parser.parse(code, "fr");

    assert!(parser.functions.contains("read_sheet"));
    assert!(parser.functions.contains("filter"));
    assert!(parser.functions.contains("groupBy"));
}

#[test]
fn parses_multiline_arguments_in_chain() {
    let code = r#"
            df
                .groupBy(
                    ['City', 'Department'],
                    { "Salary": ['mean', 'count'] }
                )
                .rename({
                    "Salary_mean": "Average Salary",
                    "Salary_count": "Num Employees"
                })
        "#;

    let mut parser = FunctionParser::new();
    parser.tracking.insert("df".to_string());
    parser.second_pass_methods(code);

    assert!(parser.functions.contains("groupBy"));
    assert!(parser.functions.contains("rename"));
}

#[test]
fn parses_mixed_multiline_and_single_line_arguments() {
    let code = r#"
            df.groupBy(
                ["Team"],
                {"Sales": ["sum"]}
            ).print()
        "#;

    let mut parser = FunctionParser::new();
    parser.tracking.insert("df".to_string());
    parser.second_pass_methods(code);

    assert!(parser.functions.contains("groupBy"));
    assert!(parser.functions.contains("print"));
}
#[test]
fn parses_semicolon_inside_arguments() {
    let code = r#"
            df.set_col("x; y", df.apply())
            df.save()
        "#;

    let mut parser = FunctionParser::new();
    parser.tracking.insert("df".to_string());
    parser.second_pass_methods(code);

    assert!(parser.functions.contains("set_col"));
    assert!(parser.functions.contains("apply"));
    assert!(parser.functions.contains("save"));
}

#[test]
fn parser_avoids_partial_identifier_matches() {
    let code = r#"
            let frequency = workbook.getWorksheet("3")
        "#;
    let mut parser = FunctionParser::new();
    parser.parse(code, "fr");

    assert!(parser.functions.is_empty());
}

#[test]
fn parser_ignores_dot_number_literals() {
    let code = r#"
            let df = fr.read_sheet();
            let income_tax = df.apply(row => row.get_number("Income") * 0.3);
            df.apply(row => row.get_number("Salary") * 0.3);
        "#;
    let mut parser = FunctionParser::new();
    parser.parse(code, "fr");

    assert!(parser.functions.contains("read_sheet"));
    assert!(parser.functions.contains("apply"));
    assert!(parser.functions.contains("get_number"));
    assert!(!parser.functions.contains("3"));
}

#[test]
fn parser_does_not_track_apply_result_as_dataframe() {
    let code = r#"
            let df = fr.read_csv();
            let x = df.apply(row => row.get("Income"));
            x.map(v => v.toString());
        "#;

    let mut parser = FunctionParser::new();
    parser.parse(code, "fr");

    assert!(parser.functions.contains("read_csv"));
    assert!(parser.functions.contains("apply"));

    assert!(!parser.functions.contains("map"));
}

#[test]
fn parses_df_from_new_dataframe() {
    let code = r#"
            let df = new DataFrame(...);
            df.filter();
        "#;

    let mut parser = FunctionParser::new();
    parser.parse(code, "this");

    assert!(parser.tracking.contains("df"));
    assert!(parser.functions.contains("filter"));
}

#[test]
fn parses_groupby_call() {
    let code = "const groupDf = new DataFrame([this.columns, ...grouped[groupKey].map(row => this.columns.map(col => row[col]))]);";

    let mut parser = FunctionParser::new();
    parser.parse(code, "this");

    assert!(parser.tracking.contains("groupDf"));
}

#[test]
fn parses_array_destructuring_assignment() {
    let line = r#"
            let [df1, df2] = json_inputs.map(s => fr.read_json(s));
            let filtered = df1.filter(row => row.get_number("Issues") > 2);
        "#;
    let mut parser = FunctionParser::new();
    parser.parse(line, "fr");
    assert!(parser.tracking.contains("df1"));
    assert!(parser.tracking.contains("df2"));
    assert!(parser.tracking.contains("filtered"));
    assert!(parser.functions.contains("filter"))
}

#[test]
fn df_does_not_match_df_filtered() {
    let code = r#"
            let df = fr.read_csv();
            let df_filtered = df.filter();
        "#;

    let mut parser = FunctionParser::new();
    parser.parse(code, "fr");

    assert!(parser.tracking.contains("df"));
    assert!(parser.tracking.contains("df_filtered"));
    assert!(parser.functions.contains("read_csv"));
    assert!(parser.functions.contains("filter"));
}

#[test]
fn parser_works_on_fr_iterators(){
    let code = r#"
        set_column(columnName: string, values: CellValue[], inplace: boolean = false): DataFrame {
            if (this.values.length != values.length) {
                throw new RangeError(`DataFrame and Input Dimensions Don't Match\nDataFrame has ${this.values.length} rows, while input values have ${values.length}`);
            }
            let dtype = detectColumn(values.map(row => row.toString()));
            let output = this.copy()

            if (!output.columns.includes(columnName)) {
                output.columns.push(columnName);
                output.__headers.add(columnName);
            }

            output.dtypes[columnName] = dtype;
            for (let [row, index] of output.iterrows()) {
                row[columnName] = values[index];
            }

            this.__assign_inplace(output, inplace);
            return output;
        };"#;

    let mut parser = FunctionParser::new();
    parser.parse(code, "this");
    
    assert!(parser.tracking.contains("output"));
    assert!(!parser.functions.contains("copy"));
    assert!(parser.functions.contains("iterrows"));
    assert!(parser.functions.contains("__assign_inplace"));
}
