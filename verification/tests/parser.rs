//! Netlists.
use isa_minimization::parser::{parse_netlist, Assign, Expr, NetlistError};

#[test]
fn parses_basic_flattened_netlist() {
    let src = r#"
        module top(
            input [3:0] a,
            input b,
            output [1:0] y
        );

        wire [3:0] bus;
        wire n1;

        assign bus[0] = b;
        assign bus[1] = a[0];
        assign y[0] = bus[3];

        NAND2_X1 u1 (
            .A(a[2]),
            .B(bus[1]),
            .Y(n1)
        );

        endmodule
    "#;

    let netlist = parse_netlist(src).unwrap();

    assert_eq!(netlist.name, "top");

    assert_eq!(netlist.inputs, vec!["a[0]", "a[1]", "a[2]", "a[3]", "b"]);

    assert_eq!(netlist.outputs, vec!["y[0]", "y[1]"]);

    assert_eq!(
        netlist.wires,
        vec!["bus[0]", "bus[1]", "bus[2]", "bus[3]", "n1"]
    );

    assert_eq!(netlist.assignments.len(), 3);
    assert_eq!(
        netlist.assignments[0],
        Assign {
            lhs: Expr::Net("bus[0]".to_string()),
            rhs: Expr::Net("b".to_string()),
        }
    );

    assert_eq!(netlist.instances.len(), 1);
    let instance = netlist.instances.get("u1").unwrap();
    assert_eq!(instance.cell_type, "NAND2_X1");
    assert_eq!(instance.name, "u1");
}

#[test]
fn rejects_part_select() {
    let src = r#"
        module top(input [3:0] a, output y);
            assign y = a[3:0];
        endmodule
    "#;

    let err = parse_netlist(src).unwrap_err();

    assert!(matches!(
        err,
        NetlistError::UnsupportedPartSelect { .. } | NetlistError::Parse(_)
    ));
}

#[test]
fn rejects_concat() {
    let src = r#"
        module top(input a, input b, output y);
            assign y = {a, b};
        endmodule
    "#;

    let err = parse_netlist(src).unwrap_err();

    assert!(matches!(
        err,
        NetlistError::UnsupportedConcat { .. } | NetlistError::Parse(_)
    ));
}
